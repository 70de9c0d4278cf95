//! Custom overlay layers: markers, areas, lines, and GeoJSON.
//!
//! This module provides a simple API for adding custom visual elements on
//! top of the rendered map. Overlays are drawn after the base map tiles.
//!
//! Supports:
//! - **Markers**: point labels at a lat/lon position
//! - **Lines**: polylines connecting lat/lon positions
//! - **Areas**: filled polygons (outer ring + optional holes)
//! - **GeoJSON layers**: full GeoJSON FeatureCollection/Feature/Geometry support

use crate::braille_buffer::ColorIdx;
use crate::config::MapConfig;
use crate::double::{lemma_one, one, Double, ONE};
use crate::geo::{
    document_shapes, lat_lon_lines, parse_document, parse_geojson, parsed_geojson, shape_models,
    GeoDocument, GeoJsonGeometry, LatLon, Shape,
};
use crate::styler::text_model;
use crate::text::char_text;
use vstd::prelude::*;

verus! {

// -- Ids -------------------------------------------------------------------

/// Opaque handle for removing overlays.
pub type OverlayId = u64;

/// Hands out ids, each once.
#[derive(Debug)]
pub struct IdSource {
    pub next: u64,
}

/// The id that follows another.
pub open spec fn id_after(id: u64) -> u64 {
    if id == u64::MAX {
        0
    } else {
        (id + 1) as u64
    }
}

impl IdSource {
    /// A source that starts at 1.
    pub fn new() -> (r: Self)
        ensures
            r.next == 1,
    {
        IdSource { next: 1 }
    }

    /// The next id.
    pub fn next_id(&mut self) -> (r: OverlayId)
        ensures
            r == old(self).next,
            final(self).next == id_after(old(self).next),
    {
        let id: u64 = self.next;
        self.next = if id == u64::MAX {
            0
        } else {
            id + 1
        };
        id
    }
}

// -- Overlays --------------------------------------------------------------

/// A custom overlay element.
#[derive(Debug)]
pub struct Overlay {
    /// Unique identifier for removal.
    pub id: OverlayId,
    /// The overlay kind/geometry.
    pub kind: OverlayKind,
    /// Display color (xterm-256 index). Used for markers and lines.
    pub color: ColorIdx,
    /// Fill color for areas/polygons (xterm-256 index). `None` = no fill.
    pub fill_color: Option<ColorIdx>,
    /// Stroke/outline color for areas/polygons (xterm-256 index). `None` = no outline.
    pub stroke_color: Option<ColorIdx>,
    /// Fill opacity (0 = fully transparent, 1 = fully opaque). Default: 1.
    pub fill_opacity: Double,
    /// Optional text label (for markers).
    pub label: Option<String>,
    /// Line width (for lines and area outlines).
    pub line_width: Double,
}

/// The geometry kind of an overlay.
#[derive(Debug)]
pub enum OverlayKind {
    /// A single point marker.
    Marker(LatLon),
    /// A polyline connecting multiple positions.
    Line(Vec<LatLon>),
    /// A filled polygon (outer ring).
    Area(Vec<LatLon>),
    /// A full GeoJSON layer (parsed geometries).
    GeoJson(Vec<GeoJsonGeometry>),
}

/// What an [`Overlay`] says.
pub struct OverlayModel {
    pub id: u64,
    pub kind: KindModel,
    pub color: u8,
    pub fill_color: Option<u8>,
    pub stroke_color: Option<u8>,
    pub fill_opacity: Double,
    pub label: Option<Seq<char>>,
    pub line_width: Double,
}

/// What an [`OverlayKind`] says.
pub enum KindModel {
    Marker(LatLon),
    Line(Seq<LatLon>),
    Area(Seq<LatLon>),
    GeoJson(Seq<Shape>),
}

impl View for OverlayKind {
    type V = KindModel;

    open spec fn view(&self) -> KindModel {
        match self {
            OverlayKind::Marker(p) => KindModel::Marker(*p),
            OverlayKind::Line(v) => KindModel::Line(v@),
            OverlayKind::Area(v) => KindModel::Area(v@),
            OverlayKind::GeoJson(v) => KindModel::GeoJson(shape_models(v@)),
        }
    }
}

impl View for Overlay {
    type V = OverlayModel;

    open spec fn view(&self) -> OverlayModel {
        OverlayModel {
            id: self.id,
            kind: self.kind@,
            color: self.color,
            fill_color: self.fill_color,
            stroke_color: self.stroke_color,
            fill_opacity: self.fill_opacity,
            label: text_model(self.label),
            line_width: self.line_width,
        }
    }
}

/// Manages a set of overlays.
#[derive(Debug)]
pub struct OverlayCollection {
    pub overlays: Vec<Overlay>,
}

pub open spec fn overlay_models(overlays: Seq<Overlay>) -> Seq<OverlayModel> {
    Seq::new(overlays.len(), |i: int| overlays[i]@)
}

impl View for OverlayCollection {
    type V = Seq<OverlayModel>;

    open spec fn view(&self) -> Seq<OverlayModel> {
        overlay_models(self.overlays@)
    }
}

/// A marker overlay.
pub open spec fn marker_overlay(
    id: u64,
    pos: LatLon,
    label: Option<Seq<char>>,
    color: u8,
) -> OverlayModel {
    OverlayModel {
        id,
        kind: KindModel::Marker(pos),
        color,
        fill_color: None,
        stroke_color: None,
        fill_opacity: Double { bits: ONE },
        label,
        line_width: Double { bits: ONE },
    }
}

/// A line overlay.
pub open spec fn line_overlay(
    id: u64,
    points: Seq<LatLon>,
    color: u8,
    line_width: Double,
) -> OverlayModel {
    OverlayModel {
        id,
        kind: KindModel::Line(points),
        color,
        fill_color: None,
        stroke_color: None,
        fill_opacity: Double { bits: ONE },
        label: None,
        line_width,
    }
}

/// An overlay with areas: its color is that of the fill, else that of the
/// outline, and its opacity is between 0 and 1.
pub open spec fn area_overlay(
    id: u64,
    kind: KindModel,
    fill_color: Option<u8>,
    stroke_color: Option<u8>,
    fill_opacity: Double,
) -> OverlayModel {
    OverlayModel {
        id,
        kind,
        color: match (fill_color, stroke_color) {
            (Some(c), _) => c,
            (None, Some(c)) => c,
            (None, None) => 0,
        },
        fill_color,
        stroke_color,
        fill_opacity: fill_opacity.clamped(Double { bits: 0 }, Double { bits: ONE }),
        label: None,
        line_width: Double { bits: ONE },
    }
}

/// Overlays without those of an id.
pub open spec fn without(overlays: Seq<OverlayModel>, id: u64) -> Seq<OverlayModel>
    decreases overlays.len(),
{
    if overlays.len() == 0 {
        Seq::empty()
    } else {
        let before = without(overlays.drop_last(), id);
        if overlays.last().id != id {
            before.push(overlays.last())
        } else {
            before
        }
    }
}

/// Whether an id is that of an overlay.
pub open spec fn has_id(overlays: Seq<OverlayModel>, id: u64) -> bool {
    exists|i: int| 0 <= i < overlays.len() && (#[trigger] overlays[i]).id == id
}

/// Removing an overlay undoes adding it, if its id is new.
pub proof fn law_removing_undoes_adding(overlays: Seq<OverlayModel>, added: OverlayModel)
    requires
        !has_id(overlays, added.id),
    ensures
        without(overlays.push(added), added.id) == overlays,
{
    assert(overlays.push(added).drop_last() =~= overlays);
    lemma_without_absent(overlays, added.id);
}

proof fn lemma_without_absent(overlays: Seq<OverlayModel>, id: u64)
    requires
        !has_id(overlays, id),
    ensures
        without(overlays, id) == overlays,
    decreases overlays.len(),
{
    if overlays.len() > 0 {
        let rest = overlays.drop_last();
        assert forall|i: int| 0 <= i < rest.len() implies (#[trigger] rest[i]).id != id by {
            assert(overlays[i].id != id);
        }
        lemma_without_absent(rest, id);
        assert(overlays[overlays.len() - 1].id != id);
        assert(overlays =~= rest.push(overlays.last()));
    }
}

/// Whether all ids were handed out by a source whose next id is this.
pub open spec fn issued(overlays: Seq<OverlayModel>, next: u64) -> bool {
    forall|i: int| 0 <= i < overlays.len() ==> (#[trigger] overlays[i]).id < next
}

/// A source that has not yet handed out all ids hands out none that an overlay
/// has already.
pub proof fn law_ids_are_unique(overlays: Seq<OverlayModel>, next: u64, added: OverlayModel)
    requires
        issued(overlays, next),
        next < u64::MAX,
        added.id == next,
    ensures
        !has_id(overlays, added.id),
        issued(overlays.push(added), (next + 1) as u64),
{
}

/// An id that was removed is gone, and other overlays stay.
pub proof fn law_removed_ids_are_gone(overlays: Seq<OverlayModel>, id: u64)
    ensures
        !has_id(without(overlays, id), id),
        forall|i: int|
            0 <= i < overlays.len() && (#[trigger] overlays[i]).id != id ==> without(
                overlays,
                id,
            ).contains(overlays[i]),
    decreases overlays.len(),
{
    if overlays.len() > 0 {
        let rest = overlays.drop_last();
        law_removed_ids_are_gone(rest, id);
        let before = without(rest, id);
        let after = without(overlays, id);
        assert forall|i: int|
            0 <= i < overlays.len() && (#[trigger] overlays[i]).id != id implies after.contains(
            overlays[i],
        ) by {
            if i < rest.len() {
                assert(rest[i] == overlays[i]);
                let k = choose|k: int| 0 <= k < before.len() && before[k] == rest[i];
                assert(after[k] == overlays[i]);
            } else {
                assert(after[before.len() as int] == overlays[i]);
            }
        }
        assert forall|k: int| 0 <= k < after.len() implies (#[trigger] after[k]).id != id by {
            if k < before.len() {
                assert(before[k].id != id);
            }
        }
    }
}

impl OverlayCollection {
    pub fn new() -> (r: Self)
        ensures
            r@ == Seq::<OverlayModel>::empty(),
    {
        let c: OverlayCollection = OverlayCollection { overlays: Vec::new() };
        assert(c@ =~= Seq::<OverlayModel>::empty());
        c
    }

    fn push(&mut self, overlay: Overlay)
        ensures
            final(self)@ == old(self)@.push(overlay@),
    {
        self.overlays.push(overlay);
        assert(self@ =~= old(self)@.push(overlay@));
    }

    pub fn add_marker(
        &mut self,
        ids: &mut IdSource,
        pos: LatLon,
        label: Option<String>,
        color: ColorIdx,
    ) -> (r: OverlayId)
        ensures
            r == old(ids).next,
            final(ids).next == id_after(old(ids).next),
            final(self)@ == old(self)@.push(marker_overlay(r, pos, text_model(label), color)),
    {
        let id: OverlayId = ids.next_id();
        self.push(
            Overlay {
                id,
                kind: OverlayKind::Marker(pos),
                color,
                fill_color: None,
                stroke_color: None,
                fill_opacity: Double::from_bits(ONE),
                label,
                line_width: Double::from_bits(ONE),
            },
        );
        id
    }

    pub fn add_line(
        &mut self,
        ids: &mut IdSource,
        points: Vec<LatLon>,
        color: ColorIdx,
        line_width: Double,
    ) -> (r: OverlayId)
        ensures
            r == old(ids).next,
            final(ids).next == id_after(old(ids).next),
            final(self)@ == old(self)@.push(line_overlay(r, points@, color, line_width)),
    {
        let id: OverlayId = ids.next_id();
        self.push(
            Overlay {
                id,
                kind: OverlayKind::Line(points),
                color,
                fill_color: None,
                stroke_color: None,
                fill_opacity: Double::from_bits(ONE),
                label: None,
                line_width,
            },
        );
        id
    }

    /// Add a filled area with separate fill and stroke colors.
    ///
    /// - `fill_color`: interior color (`None` = no fill)
    /// - `stroke_color`: outline color (`None` = no outline)
    /// - `fill_opacity`: 0 (transparent) to 1 (opaque)
    pub fn add_area(
        &mut self,
        ids: &mut IdSource,
        points: Vec<LatLon>,
        fill_color: Option<ColorIdx>,
        stroke_color: Option<ColorIdx>,
        fill_opacity: Double,
    ) -> (r: OverlayId)
        ensures
            r == old(ids).next,
            final(ids).next == id_after(old(ids).next),
            final(self)@ == old(self)@.push(
                area_overlay(r, KindModel::Area(points@), fill_color, stroke_color, fill_opacity),
            ),
    {
        self.add_surface(ids, OverlayKind::Area(points), fill_color, stroke_color, fill_opacity)
    }

    fn add_surface(
        &mut self,
        ids: &mut IdSource,
        kind: OverlayKind,
        fill_color: Option<ColorIdx>,
        stroke_color: Option<ColorIdx>,
        fill_opacity: Double,
    ) -> (r: OverlayId)
        ensures
            r == old(ids).next,
            final(ids).next == id_after(old(ids).next),
            final(self)@ == old(self)@.push(
                area_overlay(r, kind@, fill_color, stroke_color, fill_opacity),
            ),
    {
        let color: ColorIdx = match (fill_color, stroke_color) {
            (Some(c), _) => c,
            (None, Some(c)) => c,
            (None, None) => 0,
        };
        let low: Double = Double::from_bits(0);
        let high: Double = Double::from_bits(ONE);
        proof {
            lemma_zero_is_at_most_one();
        }
        let id: OverlayId = ids.next_id();
        self.push(
            Overlay {
                id,
                kind,
                color,
                fill_color,
                stroke_color,
                fill_opacity: fill_opacity.clamp(&low, &high),
                label: None,
                line_width: Double::from_bits(ONE),
            },
        );
        id
    }

    /// Add the geometries of a GeoJSON text. The text must be GeoJSON, and have
    /// a geometry.
    pub fn add_geojson_layer(
        &mut self,
        ids: &mut IdSource,
        geojson_str: &str,
        fill_color: Option<ColorIdx>,
        stroke_color: Option<ColorIdx>,
        fill_opacity: Double,
    ) -> (r: Result<OverlayId, String>)
        ensures
            match parsed_geojson(geojson_str@) {
                Ok(document) => if document_shapes(document).len() > 0 {
                    r matches Ok(id) && id == old(ids).next && final(self)@ == old(self)@.push(
                        area_overlay(
                            id,
                            KindModel::GeoJson(document_shapes(document)),
                            fill_color,
                            stroke_color,
                            fill_opacity,
                        ),
                    ) && final(ids).next == id_after(old(ids).next)
                } else {
                    r matches Err(e) && e@ == "no geometries found in GeoJSON"@ && final(self)@
                        == old(self)@ && final(ids).next == old(ids).next
                },
                Err(words) => r matches Err(e) && e@ == words && final(self)@ == old(self)@
                    && final(ids).next == old(ids).next,
            },
    {
        match parse_document(geojson_str) {
            Ok(document) => self.add_document(ids, &document, fill_color, stroke_color, fill_opacity),
            Err(words) => Err(words),
        }
    }

    /// Add the geometries of a GeoJSON document. There must be one.
    pub fn add_document(
        &mut self,
        ids: &mut IdSource,
        document: &GeoDocument,
        fill_color: Option<ColorIdx>,
        stroke_color: Option<ColorIdx>,
        fill_opacity: Double,
    ) -> (r: Result<OverlayId, String>)
        ensures
            if document_shapes(document@).len() > 0 {
                r matches Ok(id) && id == old(ids).next && final(self)@ == old(self)@.push(
                    area_overlay(
                        id,
                        KindModel::GeoJson(document_shapes(document@)),
                        fill_color,
                        stroke_color,
                        fill_opacity,
                    ),
                ) && final(ids).next == id_after(old(ids).next)
            } else {
                r matches Err(e) && e@ == "no geometries found in GeoJSON"@ && final(self)@
                    == old(self)@ && final(ids).next == old(ids).next
            },
    {
        let geometries: Vec<GeoJsonGeometry> = parse_geojson(document);
        assert(shape_models(geometries@).len() == geometries@.len());
        if geometries.len() == 0 {
            return Err("no geometries found in GeoJSON".to_string());
        }
        Ok(
            self.add_surface(
                ids,
                OverlayKind::GeoJson(geometries),
                fill_color,
                stroke_color,
                fill_opacity,
            ),
        )
    }

    /// Remove an overlay by its ID. Returns `true` if found.
    pub fn remove(&mut self, id: OverlayId) -> (r: bool)
        ensures
            final(self)@ == without(old(self)@, id),
            r == has_id(old(self)@, id),
    {
        let ghost all = self@;
        let mut kept: Vec<Overlay> = Vec::new();
        let mut found: bool = false;
        let mut rest: Vec<Overlay> = Vec::new();
        rest.append(&mut self.overlays);
        // The overlays come off the end, so they are put back in reverse.
        let mut back: Vec<Overlay> = Vec::new();
        assert(overlay_models(rest@) =~= all);
        assert(overlay_models(back@) =~= Seq::<OverlayModel>::empty());
        assert(all.skip(all.len() as int) =~= Seq::<OverlayModel>::empty());
        loop
            invariant
                rest@.len() + back@.len() == all.len(),
                overlay_models(rest@) == all.take(rest@.len() as int),
                overlay_models(back@) == all.skip(rest@.len() as int).reverse(),
            ensures
                rest@.len() == 0,
            decreases rest@.len(),
        {
            let ghost held = rest@;
            match rest.pop() {
                Some(o) => {
                    let ghost n = rest@.len() as int;
                    assert(overlay_models(held)[n] == o@);
                    let ghost before = overlay_models(back@);
                    assert(overlay_models(rest@) =~= all.take(n));
                    assert(o@ == all[n]);
                    back.push(o);
                    assert(overlay_models(back@) =~= before.push(o@));
                    assert(all.skip(n).reverse() =~= all.skip(n + 1).reverse().push(all[n]));
                },
                None => {
                    break;
                },
            }
        }
        assert(all.skip(0) =~= all);
        assert(overlay_models(kept@) =~= Seq::<OverlayModel>::empty());
        assert(all.take(0) =~= Seq::<OverlayModel>::empty());
        let ghost mut done: int = 0;
        loop
            invariant
                0 <= done <= all.len(),
                back@.len() == all.len() - done,
                overlay_models(back@) == all.skip(done).reverse(),
                overlay_models(kept@) == without(all.take(done), id),
                found == has_id(all.take(done), id),
            ensures
                done == all.len(),
            decreases back@.len(),
        {
            let ghost held = back@;
            match back.pop() {
                Some(o) => {
                    assert(overlay_models(held).last() == o@);
                    let ghost before = overlay_models(kept@);
                    proof {
                        assert(all.skip(done).reverse().last() == all[done]);
                        assert(o@ == all[done]);
                        assert(all.skip(done + 1).reverse() =~= all.skip(done).reverse().drop_last());
                        assert(overlay_models(back@) =~= all.skip(done + 1).reverse());
                        assert(all.take(done + 1).drop_last() =~= all.take(done));
                        lemma_has_id_step(all, done, id);
                    }
                    if o.id != id {
                        kept.push(o);
                        assert(overlay_models(kept@) =~= before.push(o@));
                    } else {
                        found = true;
                    }
                    proof {
                        done = done + 1;
                    }
                },
                None => {
                    break;
                },
            }
        }
        assert(all.take(done) =~= all);
        self.overlays = kept;
        found
    }

    /// Remove all overlays.
    pub fn clear(&mut self)
        ensures
            final(self)@ == Seq::<OverlayModel>::empty(),
    {
        self.overlays.clear();
        assert(self@ =~= Seq::<OverlayModel>::empty());
    }

    /// Number of overlays.
    pub fn len(&self) -> (r: usize)
        ensures
            r == self@.len(),
    {
        self.overlays.len()
    }

    /// Whether the collection is empty.
    pub fn is_empty(&self) -> (r: bool)
        ensures
            r == (self@.len() == 0),
    {
        self.overlays.len() == 0
    }
}

impl Default for OverlayCollection {
    fn default() -> (r: Self)
        ensures
            r@ == Seq::<OverlayModel>::empty(),
    {
        OverlayCollection::new()
    }
}

proof fn lemma_has_id_step(all: Seq<OverlayModel>, n: int, id: u64)
    requires
        0 <= n < all.len(),
    ensures
        has_id(all.take(n + 1), id) <==> has_id(all.take(n), id) || all[n].id == id,
{
    let (short, long) = (all.take(n), all.take(n + 1));
    if has_id(short, id) {
        let i = choose|i: int| 0 <= i < short.len() && (#[trigger] short[i]).id == id;
        assert(long[i].id == id);
    }
    if has_id(long, id) {
        let i = choose|i: int| 0 <= i < long.len() && (#[trigger] long[i]).id == id;
        if i < n {
            assert(short[i].id == id);
        }
    }
    assert(long[n] == all[n]);
}

proof fn lemma_zero_is_at_most_one()
    ensures
        (Double { bits: 0 }).at_most(Double { bits: ONE }),
{
    crate::double::lemma_magnitude_order(0, ONE as nat);
}

// -- Overlay rendering -----------------------------------------------------

/// Something to draw for an overlay.
#[derive(Debug)]
pub enum Mark {
    /// A text, centered.
    Text { text: String, at: LatLon, color: ColorIdx },
    /// A polyline.
    Line { points: Vec<LatLon>, color: ColorIdx, width: Double },
    /// A polygon: first filled, then outlined, where there is a color for it.
    Area {
        rings: Vec<Vec<LatLon>>,
        fill: Option<ColorIdx>,
        opacity: Double,
        stroke: Option<ColorIdx>,
        width: Double,
    },
}

/// What a [`Mark`] says.
pub enum MarkModel {
    Text { text: Seq<char>, at: LatLon, color: u8 },
    Line { points: Seq<LatLon>, color: u8, width: Double },
    Area {
        rings: Seq<Seq<LatLon>>,
        fill: Option<u8>,
        opacity: Double,
        stroke: Option<u8>,
        width: Double,
    },
}

impl View for Mark {
    type V = MarkModel;

    open spec fn view(&self) -> MarkModel {
        match self {
            Mark::Text { text, at, color } => MarkModel::Text {
                text: text@,
                at: *at,
                color: *color,
            },
            Mark::Line { points, color, width } => MarkModel::Line {
                points: points@,
                color: *color,
                width: *width,
            },
            Mark::Area { rings, fill, opacity, stroke, width } => MarkModel::Area {
                rings: lat_lon_lines(rings@),
                fill: *fill,
                opacity: *opacity,
                stroke: *stroke,
                width: *width,
            },
        }
    }
}

pub open spec fn mark_models(marks: Seq<Mark>) -> Seq<MarkModel> {
    Seq::new(marks.len(), |i: int| marks[i]@)
}

impl OverlayModel {
    pub open spec fn text_mark(self, text: Seq<char>, at: LatLon) -> MarkModel {
        MarkModel::Text { text, at, color: self.color }
    }

    /// A line, where it has two points.
    pub open spec fn line_marks(self, points: Seq<LatLon>) -> Seq<MarkModel> {
        if points.len() >= 2 {
            seq![MarkModel::Line { points, color: self.color, width: self.line_width }]
        } else {
            Seq::empty()
        }
    }

    /// A polygon, where its outer ring has three points.
    pub open spec fn area_marks(self, rings: Seq<Seq<LatLon>>) -> Seq<MarkModel> {
        if rings.len() > 0 && rings[0].len() >= 3 {
            seq![
                MarkModel::Area {
                    rings,
                    fill: self.fill_color,
                    opacity: self.fill_opacity,
                    stroke: self.stroke_color,
                    width: self.line_width,
                },
            ]
        } else {
            Seq::empty()
        }
    }

    /// The first `n` of several lines.
    pub open spec fn lines_marks(self, lines: Seq<Seq<LatLon>>, n: nat) -> Seq<MarkModel>
        decreases n,
    {
        if n == 0 {
            Seq::empty()
        } else {
            self.lines_marks(lines, (n - 1) as nat) + self.line_marks(lines[n - 1])
        }
    }

    /// The first `n` of several polygons.
    pub open spec fn areas_marks(self, areas: Seq<Seq<Seq<LatLon>>>, n: nat) -> Seq<MarkModel>
        decreases n,
    {
        if n == 0 {
            Seq::empty()
        } else {
            self.areas_marks(areas, (n - 1) as nat) + self.area_marks(areas[n - 1])
        }
    }

    /// What is drawn for a geometry.
    pub open spec fn shape_marks(self, shape: Shape, marker: Seq<char>) -> Seq<MarkModel> {
        match shape {
            Shape::Point(p) => seq![self.text_mark(marker, p)],
            Shape::LineString(v) => self.line_marks(v),
            Shape::Polygon(v) => self.area_marks(v),
            Shape::MultiPoint(v) => Seq::new(v.len(), |i: int| self.text_mark(marker, v[i])),
            Shape::MultiLineString(v) => self.lines_marks(v, v.len()),
            Shape::MultiPolygon(v) => self.areas_marks(v, v.len()),
        }
    }

    /// What is drawn for the first `n` geometries.
    pub open spec fn shapes_marks(self, shapes: Seq<Shape>, marker: Seq<char>, n: nat) -> Seq<
        MarkModel,
    >
        decreases n,
    {
        if n == 0 {
            Seq::empty()
        } else {
            self.shapes_marks(shapes, marker, (n - 1) as nat) + self.shape_marks(
                shapes[n - 1],
                marker,
            )
        }
    }

    /// What is drawn for the overlay. A marker without a label shows the marker
    /// for points of interest.
    pub open spec fn marks(self, marker: Seq<char>) -> Seq<MarkModel> {
        match self.kind {
            KindModel::Marker(p) => seq![
                self.text_mark(
                    match self.label {
                        Some(label) => label,
                        None => marker,
                    },
                    p,
                ),
            ],
            KindModel::Line(v) => self.line_marks(v),
            KindModel::Area(v) => self.area_marks(seq![v]),
            KindModel::GeoJson(v) => self.shapes_marks(v, marker, v.len()),
        }
    }
}

/// What is drawn for the first `n` overlays.
pub open spec fn overlay_marks(overlays: Seq<OverlayModel>, marker: Seq<char>, n: nat) -> Seq<
    MarkModel,
>
    decreases n,
{
    if n == 0 {
        Seq::empty()
    } else {
        overlay_marks(overlays, marker, (n - 1) as nat) + overlays[n - 1].marks(marker)
    }
}

fn copy_points(points: &Vec<LatLon>) -> (r: Vec<LatLon>)
    ensures
        r@ == points@,
{
    let mut out: Vec<LatLon> = Vec::new();
    let mut i: usize = 0;
    while i < points.len()
        invariant
            i <= points@.len(),
            out@ == points@.take(i as int),
        decreases points@.len() - i,
    {
        out.push(points[i]);
        assert(out@ =~= points@.take(i + 1));
        i = i + 1;
    }
    assert(out@ =~= points@);
    out
}

fn copy_rings(rings: &Vec<Vec<LatLon>>) -> (r: Vec<Vec<LatLon>>)
    ensures
        lat_lon_lines(r@) == lat_lon_lines(rings@),
{
    let mut out: Vec<Vec<LatLon>> = Vec::new();
    let mut i: usize = 0;
    while i < rings.len()
        invariant
            i <= rings@.len(),
            out@.len() == i,
            forall|k: int| 0 <= k < i ==> #[trigger] out@[k]@ == rings@[k]@,
        decreases rings@.len() - i,
    {
        out.push(copy_points(&rings[i]));
        i = i + 1;
    }
    assert(lat_lon_lines(out@) =~= lat_lon_lines(rings@));
    out
}

fn push_mark(marks: &mut Vec<Mark>, mark: Mark)
    ensures
        mark_models(final(marks)@) == mark_models(old(marks)@) + seq![mark@],
{
    marks.push(mark);
    assert(mark_models(marks@) =~= mark_models(old(marks)@) + seq![mark@]);
}

impl Overlay {
    fn push_text(&self, marks: &mut Vec<Mark>, text: &str, at: LatLon)
        ensures
            mark_models(final(marks)@) == mark_models(old(marks)@) + seq![self@.text_mark(text@, at)],
    {
        push_mark(marks, Mark::Text { text: text.to_string(), at, color: self.color });
    }

    fn push_line(&self, marks: &mut Vec<Mark>, points: &Vec<LatLon>)
        ensures
            mark_models(final(marks)@) == mark_models(old(marks)@) + self@.line_marks(points@),
    {
        if points.len() >= 2 {
            push_mark(
                marks,
                Mark::Line {
                    points: copy_points(points),
                    color: self.color,
                    width: self.line_width,
                },
            );
        } else {
            assert(mark_models(marks@) =~= mark_models(old(marks)@) + Seq::<MarkModel>::empty());
        }
    }

    fn push_area(&self, marks: &mut Vec<Mark>, rings: &Vec<Vec<LatLon>>)
        ensures
            mark_models(final(marks)@) == mark_models(old(marks)@) + self@.area_marks(
                lat_lon_lines(rings@),
            ),
    {
        if rings.len() > 0 && rings[0].len() >= 3 {
            push_mark(
                marks,
                Mark::Area {
                    rings: copy_rings(rings),
                    fill: self.fill_color,
                    opacity: self.fill_opacity,
                    stroke: self.stroke_color,
                    width: self.line_width,
                },
            );
        } else {
            assert(mark_models(marks@) =~= mark_models(old(marks)@) + Seq::<MarkModel>::empty());
        }
    }

    fn push_geometry(&self, marks: &mut Vec<Mark>, geometry: &GeoJsonGeometry, marker: &str)
        ensures
            mark_models(final(marks)@) == mark_models(old(marks)@) + self@.shape_marks(
                geometry@,
                marker@,
            ),
    {
        let ghost start = mark_models(marks@);
        assert(start + Seq::<MarkModel>::empty() =~= start);
        match geometry {
            GeoJsonGeometry::Point(p) => {
                self.push_text(marks, marker, *p);
            },
            GeoJsonGeometry::LineString(v) => {
                self.push_line(marks, v);
            },
            GeoJsonGeometry::Polygon(v) => {
                self.push_area(marks, v);
            },
            GeoJsonGeometry::MultiPoint(v) => {
                let ghost all = self@.shape_marks(geometry@, marker@);
                let mut i: usize = 0;
                assert(start + all.take(0) =~= start);
                while i < v.len()
                    invariant
                        i <= v@.len(),
                        all == Seq::new(v@.len(), |i: int| self@.text_mark(marker@, v@[i])),
                        mark_models(marks@) == start + all.take(i as int),
                    decreases v@.len() - i,
                {
                    self.push_text(marks, marker, v[i]);
                    assert(mark_models(marks@) =~= start + all.take(i + 1));
                    i = i + 1;
                }
                assert(all.take(i as int) =~= all);
            },
            GeoJsonGeometry::MultiLineString(v) => {
                let ghost lines = lat_lon_lines(v@);
                let mut i: usize = 0;
                while i < v.len()
                    invariant
                        i <= v@.len(),
                        lines == lat_lon_lines(v@),
                        mark_models(marks@) == start + self@.lines_marks(lines, i as nat),
                    decreases v@.len() - i,
                {
                    self.push_line(marks, &v[i]);
                    assert(lines[i as int] == v@[i as int]@);
                    assert(mark_models(marks@) =~= start + self@.lines_marks(
                        lines,
                        (i + 1) as nat,
                    ));
                    i = i + 1;
                }
            },
            GeoJsonGeometry::MultiPolygon(v) => {
                let ghost areas = crate::geo::lat_lon_polygons(v@);
                let mut i: usize = 0;
                while i < v.len()
                    invariant
                        i <= v@.len(),
                        areas == crate::geo::lat_lon_polygons(v@),
                        mark_models(marks@) == start + self@.areas_marks(areas, i as nat),
                    decreases v@.len() - i,
                {
                    self.push_area(marks, &v[i]);
                    assert(areas[i as int] == lat_lon_lines(v@[i as int]@));
                    assert(mark_models(marks@) =~= start + self@.areas_marks(
                        areas,
                        (i + 1) as nat,
                    ));
                    i = i + 1;
                }
            },
        }
    }

    fn push_marks(&self, marks: &mut Vec<Mark>, marker: &str)
        ensures
            mark_models(final(marks)@) == mark_models(old(marks)@) + self@.marks(marker@),
    {
        let ghost start = mark_models(marks@);
        match &self.kind {
            OverlayKind::Marker(p) => {
                match &self.label {
                    Some(label) => {
                        self.push_text(marks, label.as_str(), *p);
                    },
                    None => {
                        self.push_text(marks, marker, *p);
                    },
                }
            },
            OverlayKind::Line(v) => {
                self.push_line(marks, v);
            },
            OverlayKind::Area(v) => {
                let mut rings: Vec<Vec<LatLon>> = Vec::new();
                rings.push(copy_points(v));
                assert(lat_lon_lines(rings@) =~= seq![v@]);
                self.push_area(marks, &rings);
            },
            OverlayKind::GeoJson(v) => {
                let ghost shapes = shape_models(v@);
                let mut i: usize = 0;
                assert(start + Seq::<MarkModel>::empty() =~= start);
                while i < v.len()
                    invariant
                        i <= v@.len(),
                        shapes == shape_models(v@),
                        mark_models(marks@) == start + self@.shapes_marks(
                            shapes,
                            marker@,
                            i as nat,
                        ),
                    decreases v@.len() - i,
                {
                    self.push_geometry(marks, &v[i], marker);
                    assert(shapes[i as int] == v@[i as int]@);
                    assert(mark_models(marks@) =~= start + self@.shapes_marks(
                        shapes,
                        marker@,
                        (i + 1) as nat,
                    ));
                    i = i + 1;
                }
            },
        }
    }
}

/// All that is drawn on top of the map, in order. Positions are left to be
/// projected.
pub fn render_overlays(overlays: &OverlayCollection, config: &MapConfig) -> (r: Vec<Mark>)
    ensures
        mark_models(r@) == overlay_marks(overlays@, seq![config@.poi_marker], overlays@.len()),
{
    let marker: String = char_text(config.poi_marker);
    let mut marks: Vec<Mark> = Vec::new();
    assert(mark_models(marks@) =~= Seq::<MarkModel>::empty());
    let mut i: usize = 0;
    while i < overlays.overlays.len()
        invariant
            i <= overlays@.len(),
            overlays@.len() == overlays.overlays@.len(),
            marker@ == seq![config@.poi_marker],
            mark_models(marks@) == overlay_marks(overlays@, marker@, i as nat),
        decreases overlays@.len() - i,
    {
        overlays.overlays[i].push_marks(&mut marks, marker.as_str());
        assert(overlays@[i as int] == overlays.overlays@[i as int]@);
        i = i + 1;
    }
    marks
}

/// An overlay that is added later is drawn after all others, and changes
/// nothing of what is drawn for them.
pub proof fn law_later_overlays_come_on_top(
    overlays: Seq<OverlayModel>,
    added: OverlayModel,
    marker: Seq<char>,
)
    ensures
        overlay_marks(overlays.push(added), marker, overlays.len() + 1) == overlay_marks(
            overlays,
            marker,
            overlays.len(),
        ) + added.marks(marker),
{
    lemma_marks_of_first(overlays, added, marker, overlays.len());
}

proof fn lemma_marks_of_first(
    overlays: Seq<OverlayModel>,
    added: OverlayModel,
    marker: Seq<char>,
    n: nat,
)
    requires
        n <= overlays.len(),
    ensures
        overlay_marks(overlays.push(added), marker, n) == overlay_marks(overlays, marker, n),
    decreases n,
{
    if n > 0 {
        lemma_marks_of_first(overlays, added, marker, (n - 1) as nat);
    }
}

// -- What is drawn for an overlay ------------------------------------------

/// Whether a mark is a polygon with these rings, inside and outline.
pub open spec fn is_area(
    mark: Mark,
    rings: Seq<Seq<LatLon>>,
    inside: Option<u8>,
    outline: Option<u8>,
) -> bool {
    mark matches Mark::Area { rings: r, fill, stroke, .. } && {
        &&& r@.len() == rings.len()
        &&& forall|i: int| 0 <= i < rings.len() ==> (#[trigger] r@[i])@ == rings[i]
        &&& fill == inside
        &&& stroke == outline
    }
}

/// Whether a mark is a line through these points.
pub open spec fn is_line(mark: Mark, points: Seq<LatLon>, color: u8, width: Double) -> bool {
    mark matches Mark::Line { points: p, color: c, width: w } && p@ == points && c == color && w
        == width
}

/// Whether a mark is a text at a place.
pub open spec fn is_text(mark: Mark, text: Seq<char>, at: LatLon, color: u8) -> bool {
    mark matches Mark::Text { text: t, at: a, color: c } && t@ == text && a == at && c == color
}

/// An overlay draws in its own colors, as its kind asks. An area whose ring has
/// at least three points gives one mark: that ring, filled with the fill color
/// and outlined with the stroke color, where there is one. A line of at least
/// two points gives one line in the overlay's color and width. A marker gives
/// its label, or the marker for points of interest where it has none, at its
/// place. Anything shorter gives nothing.
pub proof fn law_overlays_draw_in_their_colors(
    overlay: Overlay,
    marker: Seq<char>,
    marks: Seq<Mark>,
)
    requires
        mark_models(marks) == overlay@.marks(marker),
    ensures
        overlay.kind matches OverlayKind::Area(ring) ==> {
            &&& ring@.len() >= 3 ==> marks.len() == 1 && is_area(
                marks[0],
                seq![ring@],
                overlay.fill_color,
                overlay.stroke_color,
            ) && marks[0]->opacity == overlay.fill_opacity && marks[0]->Area_width
                == overlay.line_width
            &&& ring@.len() < 3 ==> marks.len() == 0
        },
        overlay.kind matches OverlayKind::Line(points) ==> {
            &&& points@.len() >= 2 ==> marks.len() == 1 && is_line(
                marks[0],
                points@,
                overlay.color,
                overlay.line_width,
            )
            &&& points@.len() < 2 ==> marks.len() == 0
        },
        overlay.kind matches OverlayKind::Marker(at) ==> {
            &&& marks.len() == 1
            &&& overlay.label matches Some(label) ==> is_text(
                marks[0],
                label@,
                at,
                overlay.color,
            )
            &&& overlay.label is None ==> is_text(marks[0], marker, at, overlay.color)
        },
        overlay.kind matches OverlayKind::GeoJson(shapes) ==> shapes@.len() == 0 ==> marks.len()
            == 0,
{
    assert(mark_models(marks).len() == marks.len());
    if marks.len() == 1 {
        assert(mark_models(marks)[0] == marks[0]@);
        if let OverlayKind::Area(ring) = overlay.kind {
            lemma_area_mark(marks[0], seq![ring@]);
        }
    }
}

proof fn lemma_area_mark(mark: Mark, rings: Seq<Seq<LatLon>>)
    requires
        mark@ is Area,
        mark@->rings == rings,
    ensures
        is_area(mark, rings, mark@->fill, mark@->stroke),
        mark->opacity == mark@->opacity,
        mark->Area_width == mark@->Area_width,
{
    if let Mark::Area { rings: r, fill, opacity, stroke, width } = mark {
        assert(lat_lon_lines(r@) == rings);
        assert forall|i: int| 0 <= i < rings.len() implies (#[trigger] r@[i])@ == rings[i] by {
            assert(lat_lon_lines(r@)[i] == r@[i]@);
        }
    }
}

/// An area that was added last is drawn last: exactly one mark, with the ring,
/// the fill color and the stroke color that it was added with, so that without a
/// fill color it is not filled and without a stroke color not outlined. Its
/// opacity is the given one held between 0 and 1. A ring of fewer than three
/// points adds nothing.
pub proof fn law_added_areas_are_drawn_in_their_colors(
    before: Seq<OverlayModel>,
    id: u64,
    ring: Seq<LatLon>,
    fill_color: Option<u8>,
    stroke_color: Option<u8>,
    fill_opacity: Double,
    marker: Seq<char>,
    marks: Seq<Mark>,
)
    requires
        mark_models(marks) == overlay_marks(
            before.push(
                area_overlay(id, KindModel::Area(ring), fill_color, stroke_color, fill_opacity),
            ),
            marker,
            before.len() + 1,
        ),
    ensures
        ({
            let n = overlay_marks(before, marker, before.len()).len() as int;
            &&& forall|i: int|
                0 <= i < n ==> (#[trigger] marks[i])@ == overlay_marks(
                    before,
                    marker,
                    before.len(),
                )[i]
            &&& ring.len() < 3 ==> marks.len() == n
            &&& ring.len() >= 3 ==> {
                &&& marks.len() == n + 1
                &&& is_area(marks[n], seq![ring], fill_color, stroke_color)
                &&& marks[n]->Area_width.value() == one()
                &&& !fill_opacity.nan() && 0 <= fill_opacity.value() <= one() ==> marks[n]->opacity
                    == fill_opacity
                &&& !fill_opacity.nan() && fill_opacity.value() < 0
                    ==> marks[n]->opacity.value() == 0
                &&& !fill_opacity.nan() && fill_opacity.value() > one()
                    ==> marks[n]->opacity.value() == one()
            }
        }),
{
    let added = area_overlay(id, KindModel::Area(ring), fill_color, stroke_color, fill_opacity);
    law_later_overlays_come_on_top(before, added, marker);
    let first = overlay_marks(before, marker, before.len());
    let n = first.len() as int;
    assert(mark_models(marks).len() == marks.len());
    assert forall|i: int| 0 <= i < n implies (#[trigger] marks[i])@ == first[i] by {
        assert(mark_models(marks)[i] == marks[i]@);
    }
    lemma_unit_values();
    if ring.len() >= 3 {
        assert(mark_models(marks)[n] == marks[n]@);
        lemma_area_mark(marks[n], seq![ring]);
    }
}

proof fn lemma_unit_values()
    ensures
        (Double { bits: 0 }).value() == 0,
        (Double { bits: ONE }).value() == one(),
        !(Double { bits: 0 }).nan(),
        !(Double { bits: ONE }).nan(),
{
    lemma_one();
    crate::double::lemma_magnitude_order(0, 0);
}

/// A line that was added last is drawn last, in its color and width; a marker
/// with its label and color, at its place.
pub proof fn law_added_lines_and_markers_are_drawn(
    before: Seq<OverlayModel>,
    id: u64,
    points: Seq<LatLon>,
    at: LatLon,
    label: Option<Seq<char>>,
    color: u8,
    width: Double,
    marker: Seq<char>,
    lines: Seq<Mark>,
    texts: Seq<Mark>,
)
    requires
        mark_models(lines) == overlay_marks(
            before.push(line_overlay(id, points, color, width)),
            marker,
            before.len() + 1,
        ),
        mark_models(texts) == overlay_marks(
            before.push(marker_overlay(id, at, label, color)),
            marker,
            before.len() + 1,
        ),
    ensures
        ({
            let n = overlay_marks(before, marker, before.len()).len() as int;
            &&& points.len() < 2 ==> lines.len() == n
            &&& points.len() >= 2 ==> lines.len() == n + 1 && is_line(
                lines[n],
                points,
                color,
                width,
            )
            &&& texts.len() == n + 1
            &&& label matches Some(text) ==> is_text(texts[n], text, at, color)
            &&& label is None ==> is_text(texts[n], marker, at, color)
        }),
{
    law_later_overlays_come_on_top(before, line_overlay(id, points, color, width), marker);
    law_later_overlays_come_on_top(before, marker_overlay(id, at, label, color), marker);
    let n = overlay_marks(before, marker, before.len()).len() as int;
    assert(mark_models(lines).len() == lines.len());
    assert(mark_models(texts).len() == texts.len());
    assert(mark_models(texts)[n] == texts[n]@);
    if points.len() >= 2 {
        assert(mark_models(lines)[n] == lines[n]@);
    }
}

/// What a GeoJSON geometry draws, in the colors of its overlay: a point the
/// marker, a line itself, a polygon with all its rings. Several are drawn one
/// after the other as each alone would be, and so are the geometries of a
/// document.
pub proof fn law_geometries_are_drawn_like_overlays(
    overlay: OverlayModel,
    marker: Seq<char>,
    at: LatLon,
    points: Seq<LatLon>,
    rings: Seq<Seq<LatLon>>,
    marks: Seq<Mark>,
)
    ensures
        mark_models(marks) == overlay.shape_marks(Shape::Point(at), marker) ==> marks.len() == 1
            && is_text(marks[0], marker, at, overlay.color),
        mark_models(marks) == overlay.shape_marks(Shape::LineString(points), marker)
            && points.len() >= 2 ==> marks.len() == 1 && is_line(
            marks[0],
            points,
            overlay.color,
            overlay.line_width,
        ),
        points.len() < 2 ==> overlay.shape_marks(Shape::LineString(points), marker).len() == 0,
        mark_models(marks) == overlay.shape_marks(Shape::Polygon(rings), marker) && rings.len() > 0
            && rings[0].len() >= 3 ==> marks.len() == 1 && is_area(
            marks[0],
            rings,
            overlay.fill_color,
            overlay.stroke_color,
        ) && marks[0]->opacity == overlay.fill_opacity && marks[0]->Area_width
            == overlay.line_width,
        rings.len() == 0 || rings[0].len() < 3 ==> overlay.shape_marks(
            Shape::Polygon(rings),
            marker,
        ).len() == 0,
{
    assert(mark_models(marks).len() == marks.len());
    if marks.len() == 1 {
        assert(mark_models(marks)[0] == marks[0]@);
        if marks[0]@ is Area {
            lemma_area_mark(marks[0], marks[0]@->rings);
        }
    }
}

/// What several geometries draw is what each draws, one after the other: one
/// more of a kind adds what it would draw alone.
pub proof fn law_geometries_are_drawn_one_after_another(
    overlay: OverlayModel,
    marker: Seq<char>,
    points: Seq<LatLon>,
    at: LatLon,
    lines: Seq<Seq<LatLon>>,
    line: Seq<LatLon>,
    areas: Seq<Seq<Seq<LatLon>>>,
    area: Seq<Seq<LatLon>>,
    shapes: Seq<Shape>,
    shape: Shape,
)
    ensures
        overlay.shape_marks(Shape::MultiPoint(Seq::empty()), marker).len() == 0,
        overlay.shape_marks(Shape::MultiPoint(points.push(at)), marker) == overlay.shape_marks(
            Shape::MultiPoint(points),
            marker,
        ) + overlay.shape_marks(Shape::Point(at), marker),
        overlay.shape_marks(Shape::MultiLineString(Seq::empty()), marker).len() == 0,
        overlay.shape_marks(Shape::MultiLineString(lines.push(line)), marker)
            == overlay.shape_marks(Shape::MultiLineString(lines), marker) + overlay.shape_marks(
            Shape::LineString(line),
            marker,
        ),
        overlay.shape_marks(Shape::MultiPolygon(Seq::empty()), marker).len() == 0,
        overlay.shape_marks(Shape::MultiPolygon(areas.push(area)), marker) == overlay.shape_marks(
            Shape::MultiPolygon(areas),
            marker,
        ) + overlay.shape_marks(Shape::Polygon(area), marker),
        (OverlayModel { kind: KindModel::GeoJson(Seq::empty()), ..overlay }).marks(marker).len()
            == 0,
        (OverlayModel { kind: KindModel::GeoJson(shapes.push(shape)), ..overlay }).marks(marker)
            == (OverlayModel { kind: KindModel::GeoJson(shapes), ..overlay }).marks(marker)
            + overlay.shape_marks(shape, marker),
{
    assert(overlay.shape_marks(Shape::MultiPoint(points.push(at)), marker)
        =~= overlay.shape_marks(Shape::MultiPoint(points), marker) + overlay.shape_marks(
        Shape::Point(at),
        marker,
    ));
    lemma_first_lines(overlay, lines, line, lines.len());
    lemma_first_areas(overlay, areas, area, areas.len());
    let more = OverlayModel { kind: KindModel::GeoJson(shapes.push(shape)), ..overlay };
    let fewer = OverlayModel { kind: KindModel::GeoJson(shapes), ..overlay };
    lemma_first_shapes(more, fewer, shapes, shape, marker, shapes.len());
    lemma_shape_marks_by_style(more, overlay, shape, marker);
    assert(shapes.push(shape)[shapes.len() as int] == shape);
}

proof fn lemma_first_lines(
    overlay: OverlayModel,
    lines: Seq<Seq<LatLon>>,
    line: Seq<LatLon>,
    n: nat,
)
    requires
        n <= lines.len(),
    ensures
        overlay.lines_marks(lines.push(line), n) == overlay.lines_marks(lines, n),
    decreases n,
{
    if n > 0 {
        lemma_first_lines(overlay, lines, line, (n - 1) as nat);
        assert(lines.push(line)[n - 1] == lines[n - 1]);
    }
}

proof fn lemma_first_areas(
    overlay: OverlayModel,
    areas: Seq<Seq<Seq<LatLon>>>,
    area: Seq<Seq<LatLon>>,
    n: nat,
)
    requires
        n <= areas.len(),
    ensures
        overlay.areas_marks(areas.push(area), n) == overlay.areas_marks(areas, n),
    decreases n,
{
    if n > 0 {
        lemma_first_areas(overlay, areas, area, (n - 1) as nat);
        assert(areas.push(area)[n - 1] == areas[n - 1]);
    }
}

proof fn lemma_first_shapes(
    a: OverlayModel,
    b: OverlayModel,
    shapes: Seq<Shape>,
    shape: Shape,
    marker: Seq<char>,
    n: nat,
)
    requires
        n <= shapes.len(),
        a == (OverlayModel { kind: a.kind, ..b }),
    ensures
        a.shapes_marks(shapes.push(shape), marker, n) == b.shapes_marks(shapes, marker, n),
    decreases n,
{
    if n > 0 {
        lemma_first_shapes(a, b, shapes, shape, marker, (n - 1) as nat);
        assert(shapes.push(shape)[n - 1] == shapes[n - 1]);
        lemma_shape_marks_by_style(a, b, shapes[n - 1], marker);
    }
}

/// What a geometry draws depends on the overlay's colors and widths alone.
proof fn lemma_shape_marks_by_style(
    a: OverlayModel,
    b: OverlayModel,
    shape: Shape,
    marker: Seq<char>,
)
    requires
        a == (OverlayModel { kind: a.kind, ..b }),
    ensures
        a.shape_marks(shape, marker) == b.shape_marks(shape, marker),
{
    match shape {
        Shape::MultiPoint(v) => {
            assert(a.shape_marks(shape, marker) =~= b.shape_marks(shape, marker));
        },
        Shape::MultiLineString(v) => {
            lemma_lines_by_style(a, b, v, v.len());
        },
        Shape::MultiPolygon(v) => {
            lemma_areas_by_style(a, b, v, v.len());
        },
        _ => {},
    }
}

proof fn lemma_lines_by_style(a: OverlayModel, b: OverlayModel, v: Seq<Seq<LatLon>>, n: nat)
    requires
        a == (OverlayModel { kind: a.kind, ..b }),
    ensures
        a.lines_marks(v, n) == b.lines_marks(v, n),
    decreases n,
{
    if n > 0 {
        lemma_lines_by_style(a, b, v, (n - 1) as nat);
    }
}

proof fn lemma_areas_by_style(a: OverlayModel, b: OverlayModel, v: Seq<Seq<Seq<LatLon>>>, n: nat)
    requires
        a == (OverlayModel { kind: a.kind, ..b }),
    ensures
        a.areas_marks(v, n) == b.areas_marks(v, n),
    decreases n,
{
    if n > 0 {
        lemma_areas_by_style(a, b, v, (n - 1) as nat);
    }
}

/// Ids count up by one, and start again at 0 after the last.
pub proof fn law_ids_count_up(id: u64)
    ensures
        id < u64::MAX ==> id_after(id) == id + 1,
        id == u64::MAX ==> id_after(id) == 0,
{
}

/// Removing an overlay keeps all others in their order. `from` names where each
/// comes from.
pub proof fn law_removing_keeps_the_order(overlays: Seq<OverlayModel>, id: u64) -> (from: Seq<int>)
    ensures
        crate::styler::picks(from, overlays.len(), |k: int| overlays[k].id != id),
        from.len() == without(overlays, id).len(),
        forall|i: int|
            0 <= i < from.len() ==> #[trigger] without(overlays, id)[i] == overlays[from[i]],
    decreases overlays.len(),
{
    if overlays.len() == 0 {
        Seq::empty()
    } else {
        let rest = overlays.drop_last();
        let n = rest.len();
        let before = law_removing_keeps_the_order(rest, id);
        let wanted = |k: int| rest[k].id != id;
        let same = |k: int| overlays[k].id != id;
        assert forall|k: int| 0 <= k < before.len() implies 0 <= #[trigger] before[k] < n && same(
            before[k],
        ) by {
            assert(wanted(before[k]));
        }
        assert forall|i: int| 0 <= i < n && #[trigger] same(i) implies before.contains(i) by {
            assert(wanted(i));
        }
        assert(crate::styler::picks(before, n, |k: int| overlays[k].id != id));
        crate::styler::lemma_picks_push(before, n, |k: int| overlays[k].id != id);
        assert(overlays.last() == overlays[n as int]);
        if overlays.last().id != id {
            before.push(n as int)
        } else {
            before
        }
    }
}

} // verus!
