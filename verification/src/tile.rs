//! Mapbox Vector Tile (MVT) feature extraction and spatial indexing.
//!
//! Takes a decoded vector tile, parses its layers and features, applies
//! styling, builds an index for fast spatial queries, and produces a set of
//! `TileLayer`s ready for rendering.

use crate::braille_buffer::{closest_color, rgb_to_xterm, ColorIdx};
use crate::double::{lemma_one, one, Double};
use crate::json::{
    counts, entry_models, find_value, lacks, law_last_entry_counts, lookup, Json, JsonNumber,
    JsonValue,
};
use crate::spatial::{tree_boxes, BoxTree, Rect};
use crate::styler::{
    style_index, text_model, Filter, LayerModel, Rule, StyleLayer, StyleModel, Styler,
};
use crate::text::text_eq;
use crate::utils::{hex2rgb, parsed_color};
use flate2::read::GzDecoder;
use std::io::Read;
use vstd::prelude::*;

verus! {

// -- Decoded tiles ---------------------------------------------------------

/// A single MVT tile.
#[derive(Debug)]
pub struct MvtTile {
    pub layers: Vec<MvtLayer>,
}

/// A layer inside an MVT tile.
#[derive(Debug)]
pub struct MvtLayer {
    pub name: String,
    pub features: Vec<MvtFeature>,
    pub keys: Vec<String>,
    pub values: Vec<MvtValue>,
    pub extent: Option<u32>,
    pub version: Option<u32>,
}

/// A feature inside an MVT layer.
#[derive(Debug)]
pub struct MvtFeature {
    pub id: Option<u64>,
    pub tags: Vec<u32>,
    pub geom_type: Option<i32>,
    pub geometry: Vec<u32>,
}

/// Protobuf value union — only one field is set.
#[derive(Debug)]
pub struct MvtValue {
    pub string_value: Option<String>,
    pub float_value: Option<Double>,
    pub double_value: Option<Double>,
    pub int_value: Option<i64>,
    pub uint_value: Option<u64>,
    pub sint_value: Option<i64>,
    pub bool_value: Option<bool>,
}

/// Geometry type of a feature.
#[derive(Clone, Copy, Debug, PartialEq, Eq, Hash, Structural)]
pub enum MvtGeomType {
    Unknown,
    Point,
    LineString,
    Polygon,
}

/// A whole number as JSON holds it.
pub open spec fn whole_number(i: i64) -> Json {
    if i < 0 {
        Json::Number(JsonNumber::NegInt(i))
    } else {
        Json::Number(JsonNumber::PosInt(i as u64))
    }
}

/// A double as JSON holds it: null where it is no number.
pub open spec fn float_number(d: Double) -> Json {
    if d.finite() {
        Json::Number(JsonNumber::Float(d))
    } else {
        Json::Null
    }
}

impl MvtValue {
    /// The JSON value of the first field that is set.
    pub open spec fn model(self) -> Json {
        if self.string_value is Some {
            Json::Text(self.string_value->0@)
        } else if self.float_value is Some {
            float_number(self.float_value->0)
        } else if self.double_value is Some {
            float_number(self.double_value->0)
        } else if self.int_value is Some {
            whole_number(self.int_value->0)
        } else if self.uint_value is Some {
            Json::Number(JsonNumber::PosInt(self.uint_value->0))
        } else if self.sint_value is Some {
            whole_number(self.sint_value->0)
        } else if self.bool_value is Some {
            Json::Bool(self.bool_value->0)
        } else {
            Json::Null
        }
    }

    /// Convert to a JSON value for uniform handling.
    pub fn to_json_value(&self) -> (r: JsonValue)
        ensures
            r.model() == self.model(),
    {
        if let Some(s) = &self.string_value {
            JsonValue::Text(s.clone())
        } else if let Some(f) = self.float_value {
            float_value(f)
        } else if let Some(d) = self.double_value {
            float_value(d)
        } else if let Some(i) = self.int_value {
            whole_value(i)
        } else if let Some(u) = self.uint_value {
            JsonValue::Number(JsonNumber::PosInt(u))
        } else if let Some(s) = self.sint_value {
            whole_value(s)
        } else if let Some(b) = self.bool_value {
            JsonValue::Bool(b)
        } else {
            JsonValue::Null
        }
    }
}

fn whole_value(i: i64) -> (r: JsonValue)
    ensures
        r.model() == whole_number(i),
{
    if i < 0 {
        JsonValue::Number(JsonNumber::NegInt(i))
    } else {
        JsonValue::Number(JsonNumber::PosInt(i as u64))
    }
}

fn float_value(d: Double) -> (r: JsonValue)
    ensures
        r.model() == float_number(d),
{
    if d.is_finite() {
        JsonValue::Number(JsonNumber::Float(d))
    } else {
        JsonValue::Null
    }
}

// -- Geometry decoding -----------------------------------------------------

/// A point in tile-local coordinates.
#[derive(Debug, Clone, Copy)]
pub struct TilePoint {
    pub x: i32,
    pub y: i32,
}

/// The signed number behind a zigzag-encoded one: 0, -1, 1, -2, 2, ...
pub open spec fn zigzag(n: u32) -> int {
    if n % 2 == 0 {
        n as int / 2
    } else {
        -(n as int / 2) - 1
    }
}

/// Zigzag-decode a protobuf uint32 to a signed i32.
pub fn zigzag_decode(n: u32) -> (r: i32)
    ensures
        r == zigzag(n),
{
    if n % 2 == 0 {
        (n / 2) as i32
    } else {
        -((n / 2) as i32) - 1
    }
}

/// Zigzag coding: every number is the decoding of its encoding.
pub proof fn law_zigzag_round_trip(v: i32)
    ensures
        zigzag((if v >= 0 {
            2 * v
        } else {
            -2 * v - 1
        }) as u32) == v,
{
}

/// The geometry read so far: the finished rings, the current one, and the
/// position of the pen.
#[verifier::ext_equal]
pub struct Pen {
    pub rings: Seq<Seq<TilePoint>>,
    pub ring: Seq<TilePoint>,
    pub x: i32,
    pub y: i32,
}

impl Pen {
    /// The pen after it moved by an encoded distance.
    pub open spec fn moved(self, dx: u32, dy: u32) -> Pen {
        Pen {
            x: self.x.wrapping_add(zigzag(dx) as i32),
            y: self.y.wrapping_add(zigzag(dy) as i32),
            ..self
        }
    }

    pub open spec fn here(self) -> TilePoint {
        TilePoint { x: self.x, y: self.y }
    }

    /// The pen after the current ring was put away, where there is one.
    pub open spec fn lifted(self) -> Pen {
        if self.ring.len() > 0 {
            Pen { rings: self.rings.push(self.ring), ring: Seq::empty(), ..self }
        } else {
            self
        }
    }

    /// The pen after `n` moves, each of which starts a new ring.
    pub open spec fn move_to(self, geometry: Seq<u32>, at: int, n: nat) -> Pen
        decreases n,
    {
        if n == 0 {
            self
        } else {
            let before = self.move_to(geometry, at, (n - 1) as nat);
            let p = before.moved(geometry[at + 2 * (n - 1)], geometry[at + 2 * (n - 1) + 1]).lifted();
            Pen { ring: p.ring.push(p.here()), ..p }
        }
    }

    /// The pen after `n` lines.
    pub open spec fn line_to(self, geometry: Seq<u32>, at: int, n: nat) -> Pen
        decreases n,
    {
        if n == 0 {
            self
        } else {
            let before = self.line_to(geometry, at, (n - 1) as nat);
            let p = before.moved(geometry[at + 2 * (n - 1)], geometry[at + 2 * (n - 1) + 1]);
            Pen { ring: p.ring.push(p.here()), ..p }
        }
    }

    /// The pen after the current ring was closed and put away.
    pub open spec fn close(self) -> Pen {
        let ring = if self.ring.len() > 0 {
            self.ring.push(self.ring.first())
        } else {
            self.ring
        };
        Pen { rings: self.rings.push(ring), ring: Seq::empty(), ..self }
    }
}

/// How many pairs of numbers a command takes: as many as it says, as far as
/// there are any.
pub open spec fn pairs_of(geometry: Seq<u32>, at: int) -> nat {
    let count = geometry[at] as nat / 8;
    let left = ((geometry.len() - (at + 1)) / 2) as nat;
    if count < left {
        count
    } else {
        left
    }
}

/// The pen after all commands from `at` on.
pub open spec fn drawn_from(geometry: Seq<u32>, at: int, pen: Pen) -> Pen
    decreases geometry.len() - at,
{
    if at < 0 || at >= geometry.len() {
        pen
    } else {
        let id = geometry[at] % 8;
        let n = pairs_of(geometry, at);
        if id == 1 {
            drawn_from(geometry, at + 1 + 2 * n, pen.move_to(geometry, at + 1, n))
        } else if id == 2 {
            drawn_from(geometry, at + 1 + 2 * n, pen.line_to(geometry, at + 1, n))
        } else if id == 7 {
            drawn_from(geometry, at + 1, pen.close())
        } else {
            drawn_from(geometry, at + 1, pen)
        }
    }
}

/// The rings that geometry commands describe.
pub open spec fn rings_of(geometry: Seq<u32>) -> Seq<Seq<TilePoint>> {
    drawn_from(
        geometry,
        0,
        Pen { rings: Seq::empty(), ring: Seq::empty(), x: 0, y: 0 },
    ).lifted().rings
}

/// The points of a list of rings.
pub open spec fn ring_views(rings: Seq<Vec<TilePoint>>) -> Seq<Seq<TilePoint>> {
    Seq::new(rings.len(), |i: int| rings[i]@)
}

/// The pen while geometry is read.
struct PenState {
    rings: Vec<Vec<TilePoint>>,
    ring: Vec<TilePoint>,
    x: i32,
    y: i32,
}

impl View for PenState {
    type V = Pen;

    closed spec fn view(&self) -> Pen {
        Pen { rings: ring_views(self.rings@), ring: self.ring@, x: self.x, y: self.y }
    }
}

impl PenState {
    fn shift(&mut self, dx: u32, dy: u32)
        ensures
            final(self)@ == old(self)@.moved(dx, dy),
    {
        self.x = self.x.wrapping_add(zigzag_decode(dx));
        self.y = self.y.wrapping_add(zigzag_decode(dy));
    }

    fn put(&mut self)
        ensures
            final(self)@ == (Pen { ring: old(self)@.ring.push(old(self)@.here()), ..old(self)@ }),
    {
        self.ring.push(TilePoint { x: self.x, y: self.y });
    }

    fn finish_ring(&mut self)
        ensures
            final(self)@ == (Pen {
                rings: old(self)@.rings.push(old(self)@.ring),
                ring: Seq::empty(),
                ..old(self)@
            }),
    {
        let mut ring: Vec<TilePoint> = Vec::new();
        std::mem::swap(&mut ring, &mut self.ring);
        let ghost rings = self.rings@;
        self.rings.push(ring);
        assert(ring_views(self.rings@) =~= ring_views(rings).push(ring@));
    }

    fn lift(&mut self)
        ensures
            final(self)@ == old(self)@.lifted(),
    {
        if self.ring.len() > 0 {
            self.finish_ring();
        }
    }

    fn close(&mut self)
        ensures
            final(self)@ == old(self)@.close(),
    {
        if self.ring.len() > 0 {
            let first: TilePoint = self.ring[0];
            self.ring.push(first);
        }
        self.finish_ring();
    }

    fn move_to(&mut self, geometry: &Vec<u32>, at: usize, n: usize)
        requires
            at + 2 * n <= geometry@.len(),
        ensures
            final(self)@ == old(self)@.move_to(geometry@, at as int, n as nat),
    {
        let len: usize = geometry.len();
        let mut k: usize = 0;
        while k < n
            invariant
                k <= n,
                len == geometry@.len(),
                at + 2 * n <= len,
                self@ == old(self)@.move_to(geometry@, at as int, k as nat),
            decreases n - k,
        {
            self.shift(geometry[at + 2 * k], geometry[at + 2 * k + 1]);
            self.lift();
            self.put();
            k = k + 1;
        }
    }

    fn line_to(&mut self, geometry: &Vec<u32>, at: usize, n: usize)
        requires
            at + 2 * n <= geometry@.len(),
        ensures
            final(self)@ == old(self)@.line_to(geometry@, at as int, n as nat),
    {
        let len: usize = geometry.len();
        let mut k: usize = 0;
        while k < n
            invariant
                k <= n,
                len == geometry@.len(),
                at + 2 * n <= len,
                self@ == old(self)@.line_to(geometry@, at as int, k as nat),
            decreases n - k,
        {
            self.shift(geometry[at + 2 * k], geometry[at + 2 * k + 1]);
            self.put();
            k = k + 1;
        }
    }
}

/// Decode MVT geometry commands into rings of points.
///
/// Each ring is a `Vec<TilePoint>`. For Point features there is one ring per
/// point; for LineString and Polygon features the rings follow the usual
/// winding rules.
pub fn decode_geometry(geometry: &Vec<u32>) -> (r: Vec<Vec<TilePoint>>)
    ensures
        ring_views(r@) == rings_of(geometry@),
{
    let mut pen: PenState = PenState { rings: Vec::new(), ring: Vec::new(), x: 0, y: 0 };
    let ghost start = Pen { rings: Seq::empty(), ring: Seq::empty(), x: 0i32, y: 0i32 };
    assert(pen@ =~= start);
    let len: usize = geometry.len();
    let mut i: usize = 0;
    while i < len
        invariant
            i <= len,
            len == geometry@.len(),
            drawn_from(geometry@, i as int, pen@) == drawn_from(geometry@, 0, start),
        decreases len - i,
    {
        let command: u32 = geometry[i];
        let id: u32 = command % 8;
        let count: usize = (command / 8) as usize;
        let left: usize = (len - (i + 1)) / 2;
        let n: usize = if count < left {
            count
        } else {
            left
        };
        assert(n == pairs_of(geometry@, i as int));
        if id == 1 {
            pen.move_to(geometry, i + 1, n);
            i = i + 1 + 2 * n;
        } else if id == 2 {
            pen.line_to(geometry, i + 1, n);
            i = i + 1 + 2 * n;
        } else if id == 7 {
            pen.close();
            i = i + 1;
        } else {
            i = i + 1;
        }
    }
    pen.lift();
    pen.rings
}

// -- Encoded geometry ------------------------------------------------------

/// A part of a geometry: points, a line, or a closed ring without the point that
/// closes it.
pub enum Part {
    Points(Seq<TilePoint>),
    Line(Seq<TilePoint>),
    Ring(Seq<TilePoint>),
}

/// The zigzag code of a number.
pub open spec fn zigzag_code(v: i32) -> u32 {
    (if v >= 0 {
        2 * v
    } else {
        -2 * v - 1
    }) as u32
}

/// The codes of the steps from a point to the first of some points, and from each
/// of them to the next.
pub open spec fn step_codes(from: TilePoint, points: Seq<TilePoint>) -> Seq<u32> {
    Seq::new(
        2 * points.len(),
        |k: int|
            {
                let p = points[k / 2];
                let q = if k / 2 == 0 {
                    from
                } else {
                    points[k / 2 - 1]
                };
                if k % 2 == 0 {
                    zigzag_code(p.x.wrapping_sub(q.x))
                } else {
                    zigzag_code(p.y.wrapping_sub(q.y))
                }
            },
    )
}

impl Part {
    /// What can be encoded: at least one point, or two of a line or ring, and no
    /// more than a command can count.
    pub open spec fn valid(self) -> bool {
        match self {
            Part::Points(ps) => 1 <= ps.len() < 0x2000_0000,
            Part::Line(ps) => 2 <= ps.len() < 0x2000_0000,
            Part::Ring(ps) => 2 <= ps.len() < 0x2000_0000,
        }
    }

    /// Where the cursor stands after the part: at its last point. Closing a ring
    /// does not move it.
    pub open spec fn end(self) -> TilePoint {
        match self {
            Part::Points(ps) => ps.last(),
            Part::Line(ps) => ps.last(),
            Part::Ring(ps) => ps.last(),
        }
    }

    /// The commands of the part, for a cursor at `from`: MoveTo is 1, LineTo 2,
    /// ClosePath 7, each with its count above the three lowest bits.
    pub open spec fn commands(self, from: TilePoint) -> Seq<u32> {
        match self {
            Part::Points(ps) => seq![(8 * ps.len() + 1) as u32] + step_codes(from, ps),
            Part::Line(ps) => line_commands(from, ps),
            Part::Ring(ps) => line_commands(from, ps) + seq![15u32],
        }
    }

    /// The rings of the part: one for each point, a line as it is, a ring with its
    /// first point again at the end.
    pub open spec fn rings(self) -> Seq<Seq<TilePoint>> {
        match self {
            Part::Points(ps) => Seq::new(ps.len(), |i: int| seq![ps[i]]),
            Part::Line(ps) => seq![ps],
            Part::Ring(ps) => seq![ps.push(ps[0])],
        }
    }
}

/// The commands that move to the first of some points and draw lines to the
/// others.
pub open spec fn line_commands(from: TilePoint, ps: Seq<TilePoint>) -> Seq<u32> {
    seq![9u32] + step_codes(from, seq![ps[0]]) + seq![(8 * (ps.len() - 1) + 2) as u32] + step_codes(
        ps[0],
        ps.skip(1),
    )
}

/// The commands of some parts, one after the other.
pub open spec fn encoded(parts: Seq<Part>, from: TilePoint) -> Seq<u32>
    decreases parts.len(),
{
    if parts.len() == 0 {
        Seq::empty()
    } else {
        parts[0].commands(from) + encoded(parts.skip(1), parts[0].end())
    }
}

/// The rings of some parts, in order.
pub open spec fn rings_of_parts(parts: Seq<Part>) -> Seq<Seq<TilePoint>>
    decreases parts.len(),
{
    if parts.len() == 0 {
        Seq::empty()
    } else {
        parts[0].rings() + rings_of_parts(parts.skip(1))
    }
}

/// Decoding gives back what was encoded: the rings of all parts in order, each
/// with its points where they were.
pub proof fn law_decoding_undoes_encoding(parts: Seq<Part>)
    requires
        forall|i: int| 0 <= i < parts.len() ==> (#[trigger] parts[i]).valid(),
    ensures
        rings_of(encoded(parts, TilePoint { x: 0, y: 0 })) == rings_of_parts(parts),
{
    let pen = Pen { rings: Seq::empty(), ring: Seq::empty(), x: 0i32, y: 0i32 };
    let geometry = encoded(parts, TilePoint { x: 0, y: 0 });
    lemma_decode_parts(Seq::empty(), parts, pen);
    assert(Seq::<u32>::empty() + geometry =~= geometry);
    assert(pen.lifted().rings + rings_of_parts(parts) =~= rings_of_parts(parts));
}

proof fn lemma_decode_parts(before: Seq<u32>, parts: Seq<Part>, pen: Pen)
    requires
        forall|i: int| 0 <= i < parts.len() ==> (#[trigger] parts[i]).valid(),
    ensures
        drawn_from(
            before + encoded(parts, pen.here()),
            before.len() as int,
            pen,
        ).lifted().rings == pen.lifted().rings + rings_of_parts(parts),
    decreases parts.len(),
{
    let geometry = before + encoded(parts, pen.here());
    let at = before.len() as int;
    if parts.len() == 0 {
        assert(geometry =~= before);
        assert(pen.lifted().rings + rings_of_parts(parts) =~= pen.lifted().rings);
    } else {
        let part = parts[0];
        let commands = part.commands(pen.here());
        let rest = encoded(parts.skip(1), part.end());
        assert(part.valid());
        let next = lemma_decode_part(before, part, rest, pen);
        assert(geometry =~= before + commands + rest);
        assert forall|i: int| 0 <= i < parts.skip(1).len() implies (
        #[trigger] parts.skip(1)[i]).valid() by {
            assert(parts[i + 1].valid());
        }
        lemma_decode_parts(before + commands, parts.skip(1), next);
        assert(pen.lifted().rings + part.rings() + rings_of_parts(parts.skip(1))
            =~= pen.lifted().rings + (part.rings() + rings_of_parts(parts.skip(1))));
    }
}

/// The pen after the commands of a part were read.
proof fn lemma_decode_part(before: Seq<u32>, part: Part, rest: Seq<u32>, pen: Pen) -> (next: Pen)
    requires
        part.valid(),
    ensures
        next.here() == part.end(),
        next.lifted().rings == pen.lifted().rings + part.rings(),
        drawn_from(
            before + part.commands(pen.here()) + rest,
            before.len() as int,
            pen,
        ) == drawn_from(
            before + part.commands(pen.here()) + rest,
            (before + part.commands(pen.here())).len() as int,
            next,
        ),
{
    let commands = part.commands(pen.here());
    let geometry = before + commands + rest;
    let at = before.len() as int;
    match part {
        Part::Points(ps) => {
            let n = ps.len();
            assert(geometry[at] == 8 * n + 1);
            assert(pairs_of(geometry, at) == n);
            assert forall|k: int| 0 <= k < 2 * n implies #[trigger] geometry[at + 1 + k]
                == step_codes(pen.here(), ps)[k] by {
                assert(geometry[at + 1 + k] == commands[1 + k]);
            }
            lemma_moves(geometry, at + 1, ps, n, pen);
            let next = pen.move_to(geometry, at + 1, n);
            assert(next.lifted().rings =~= pen.lifted().rings + part.rings());
            next
        },
        Part::Line(ps) => {
            let next = lemma_decode_line(before, ps, rest, pen);
            next
        },
        Part::Ring(ps) => {
            let open = line_commands(pen.here(), ps);
            assert(geometry =~= before + open + (seq![15u32] + rest));
            let drawn = lemma_decode_line(before, ps, seq![15u32] + rest, pen);
            let end = (before + open).len() as int;
            assert(geometry[end] == 15u32);
            let next = drawn.close();
            assert((before + commands).len() == end + 1);
            assert(next.lifted().rings =~= pen.lifted().rings + part.rings());
            next
        },
    }
}

proof fn lemma_decode_line(
    before: Seq<u32>,
    ps: Seq<TilePoint>,
    rest: Seq<u32>,
    pen: Pen,
) -> (next: Pen)
    requires
        2 <= ps.len() < 0x2000_0000,
    ensures
        next.here() == ps.last(),
        next.ring == ps,
        next.rings == pen.lifted().rings,
        next.lifted().rings == pen.lifted().rings + seq![ps],
        drawn_from(
            before + line_commands(pen.here(), ps) + rest,
            before.len() as int,
            pen,
        ) == drawn_from(
            before + line_commands(pen.here(), ps) + rest,
            (before + line_commands(pen.here(), ps)).len() as int,
            next,
        ),
{
    let commands = line_commands(pen.here(), ps);
    let geometry = before + commands + rest;
    let at = before.len() as int;
    let first = seq![ps[0]];
    let others = ps.skip(1);
    let n = others.len();
    assert(geometry[at] == commands[0]);
    assert(pairs_of(geometry, at) == 1);
    assert forall|k: int| 0 <= k < 2 implies #[trigger] geometry[at + 1 + k] == step_codes(
        pen.here(),
        first,
    )[k] by {
        assert(geometry[at + 1 + k] == commands[1 + k]);
    }
    lemma_moves(geometry, at + 1, first, 1, pen);
    let moved = pen.move_to(geometry, at + 1, 1);
    assert(moved.rings =~= pen.lifted().rings);
    let at2 = at + 3;
    assert(geometry[at2] == commands[3]);
    assert(commands[3] == 8 * n + 2);
    assert(pairs_of(geometry, at2) == n);
    assert forall|k: int| 0 <= k < 2 * n implies #[trigger] geometry[at2 + 1 + k] == step_codes(
        moved.here(),
        others,
    )[k] by {
        assert(geometry[at2 + 1 + k] == commands[4 + k]);
    }
    lemma_lines(geometry, at2 + 1, others, n, moved);
    let next = moved.line_to(geometry, at2 + 1, n);
    assert(moved.ring + others.take(n as int) =~= ps);
    assert(drawn_from(geometry, at, pen) == drawn_from(geometry, at2, moved));
    assert(next.lifted().rings =~= pen.lifted().rings + seq![ps]);
    next
}

/// A step from one point to another leads there.
proof fn lemma_step(p: i32, q: i32)
    ensures
        q.wrapping_add(zigzag(zigzag_code(p.wrapping_sub(q))) as i32) == p,
{
    law_zigzag_round_trip(p.wrapping_sub(q));
}

proof fn lemma_moves(geometry: Seq<u32>, at: int, ps: Seq<TilePoint>, n: nat, pen: Pen)
    requires
        1 <= n <= ps.len(),
        forall|k: int|
            0 <= k < 2 * ps.len() ==> #[trigger] geometry[at + k] == step_codes(pen.here(), ps)[k],
    ensures
        ({
            let after = pen.move_to(geometry, at, n);
            &&& after.here() == ps[n - 1]
            &&& after.ring == seq![ps[n - 1]]
            &&& after.rings == pen.lifted().rings + Seq::new(
                (n - 1) as nat,
                |i: int| seq![ps[i]],
            )
        }),
    decreases n,
{
    let k = 2 * (n - 1);
    let codes = step_codes(pen.here(), ps);
    assert(geometry[at + k] == codes[k]);
    assert(geometry[at + (k + 1)] == codes[k + 1]);
    assert(k / 2 == n - 1 && (k + 1) / 2 == n - 1);
    let from = if n == 1 {
        pen.here()
    } else {
        ps[n - 2]
    };
    lemma_step(ps[n - 1].x, from.x);
    lemma_step(ps[n - 1].y, from.y);
    let after = pen.move_to(geometry, at, n);
    if n > 1 {
        lemma_moves(geometry, at, ps, (n - 1) as nat, pen);
        let before = pen.move_to(geometry, at, (n - 1) as nat);
        assert(after.rings =~= pen.lifted().rings + Seq::new(
            (n - 1) as nat,
            |i: int| seq![ps[i]],
        ));
        assert(after.ring =~= seq![ps[n - 1]]);
    } else {
        assert(pen.move_to(geometry, at, 0) == pen);
        assert(after.ring =~= seq![ps[n - 1]]);
        assert(after.rings =~= pen.lifted().rings + Seq::new(0, |i: int| seq![ps[i]]));
    }
}

proof fn lemma_lines(geometry: Seq<u32>, at: int, ps: Seq<TilePoint>, n: nat, pen: Pen)
    requires
        n <= ps.len(),
        forall|k: int|
            0 <= k < 2 * ps.len() ==> #[trigger] geometry[at + k] == step_codes(pen.here(), ps)[k],
    ensures
        ({
            let after = pen.line_to(geometry, at, n);
            &&& after.here() == if n == 0 {
                pen.here()
            } else {
                ps[n - 1]
            }
            &&& after.ring == pen.ring + ps.take(n as int)
            &&& after.rings == pen.rings
        }),
    decreases n,
{
    if n > 0 {
        lemma_lines(geometry, at, ps, (n - 1) as nat, pen);
        let k = 2 * (n - 1);
        let codes = step_codes(pen.here(), ps);
        assert(geometry[at + k] == codes[k]);
        assert(geometry[at + (k + 1)] == codes[k + 1]);
        assert(k / 2 == n - 1 && (k + 1) / 2 == n - 1);
        let from = if n == 1 {
            pen.here()
        } else {
            ps[n - 2]
        };
        lemma_step(ps[n - 1].x, from.x);
        lemma_step(ps[n - 1].y, from.y);
        assert(pen.ring + ps.take(n as int) =~= (pen.ring + ps.take(n - 1)).push(ps[n - 1]));
    } else {
        assert(pen.ring + ps.take(0) =~= pen.ring);
    }
}

/// Where commands stand in a list does not matter.
proof fn lemma_pen_shift(before: Seq<u32>, geometry: Seq<u32>, at: int, n: nat, pen: Pen)
    requires
        0 <= at,
        at + 2 * n <= geometry.len(),
    ensures
        pen.move_to(before + geometry, before.len() + at, n) == pen.move_to(geometry, at, n),
        pen.line_to(before + geometry, before.len() + at, n) == pen.line_to(geometry, at, n),
    decreases n,
{
    if n > 0 {
        lemma_pen_shift(before, geometry, at, (n - 1) as nat, pen);
        let k = at + 2 * (n - 1);
        assert((before + geometry)[before.len() + k] == geometry[k]);
        assert((before + geometry)[before.len() + k + 1] == geometry[k + 1]);
    }
}

proof fn lemma_drawn_shift(before: Seq<u32>, geometry: Seq<u32>, at: int, pen: Pen)
    requires
        0 <= at,
    ensures
        drawn_from(before + geometry, before.len() + at, pen) == drawn_from(geometry, at, pen),
    decreases geometry.len() - at,
{
    if at < geometry.len() {
        let all = before + geometry;
        let n = pairs_of(geometry, at);
        assert(all[before.len() + at] == geometry[at]);
        assert(pairs_of(all, before.len() + at) == n);
        lemma_pen_shift(before, geometry, at + 1, n, pen);
        let id = geometry[at] % 8;
        if id == 1 {
            lemma_drawn_shift(
                before,
                geometry,
                at + 1 + 2 * n,
                pen.move_to(geometry, at + 1, n),
            );
        } else if id == 2 {
            lemma_drawn_shift(
                before,
                geometry,
                at + 1 + 2 * n,
                pen.line_to(geometry, at + 1, n),
            );
        } else if id == 7 {
            lemma_drawn_shift(before, geometry, at + 1, pen.close());
        } else {
            lemma_drawn_shift(before, geometry, at + 1, pen);
        }
    }
}

/// The rings that are finished already stay in front.
proof fn lemma_finished_rings_stay(geometry: Seq<u32>, at: int, first: Seq<Seq<TilePoint>>, pen: Pen)
    requires
        0 <= at,
    ensures
        drawn_from(geometry, at, Pen { rings: first + pen.rings, ..pen }) == (Pen {
            rings: first + drawn_from(geometry, at, pen).rings,
            ..drawn_from(geometry, at, pen)
        }),
    decreases geometry.len() - at,
{
    if at < geometry.len() {
        let with = Pen { rings: first + pen.rings, ..pen };
        let n = pairs_of(geometry, at);
        let id = geometry[at] % 8;
        if id == 1 {
            lemma_moves_keep_rings(geometry, at + 1, n, first, pen);
            lemma_finished_rings_stay(
                geometry,
                at + 1 + 2 * n,
                first,
                pen.move_to(geometry, at + 1, n),
            );
        } else if id == 2 {
            lemma_moves_keep_rings(geometry, at + 1, n, first, pen);
            lemma_finished_rings_stay(
                geometry,
                at + 1 + 2 * n,
                first,
                pen.line_to(geometry, at + 1, n),
            );
        } else if id == 7 {
            assert(with.close().rings =~= first + pen.close().rings);
            lemma_finished_rings_stay(geometry, at + 1, first, pen.close());
        } else {
            lemma_finished_rings_stay(geometry, at + 1, first, pen);
        }
    }
}

proof fn lemma_moves_keep_rings(
    geometry: Seq<u32>,
    at: int,
    n: nat,
    first: Seq<Seq<TilePoint>>,
    pen: Pen,
)
    ensures
        ({
            let with = Pen { rings: first + pen.rings, ..pen };
            let (m, l) = (pen.move_to(geometry, at, n), pen.line_to(geometry, at, n));
            &&& with.move_to(geometry, at, n) == (Pen { rings: first + m.rings, ..m })
            &&& with.line_to(geometry, at, n) == (Pen { rings: first + l.rings, ..l })
        }),
    decreases n,
{
    if n > 0 {
        lemma_moves_keep_rings(geometry, at, (n - 1) as nat, first, pen);
        let (dx, dy) = (geometry[at + 2 * (n - 1)], geometry[at + 2 * (n - 1) + 1]);
        let b = pen.move_to(geometry, at, (n - 1) as nat).moved(dx, dy);
        assert(first + b.rings.push(b.ring) =~= (first + b.rings).push(b.ring));
    }
}

/// A command that is none of the three is passed over.
pub proof fn law_unknown_commands_are_passed_over(word: u32, geometry: Seq<u32>)
    requires
        word % 8 != 1,
        word % 8 != 2,
        word % 8 != 7,
    ensures
        rings_of(seq![word] + geometry) == rings_of(geometry),
{
    let pen = Pen { rings: Seq::empty(), ring: Seq::empty(), x: 0, y: 0 };
    lemma_drawn_shift(seq![word], geometry, 0, pen);
}

/// A command that says more pairs of numbers than there are takes all pairs that
/// there are.
pub proof fn law_short_commands_take_what_there_is(id: u32, count: nat, geometry: Seq<u32>)
    requires
        id == 1 || id == 2,
        geometry.len() / 2 <= count < 0x2000_0000,
    ensures
        rings_of(seq![(8 * count + id) as u32] + geometry) == rings_of(
            seq![(8 * (geometry.len() / 2) + id) as u32] + geometry,
        ),
{
    let pen = Pen { rings: Seq::empty(), ring: Seq::empty(), x: 0, y: 0 };
    let n = geometry.len() / 2;
    let (a, b) = (seq![(8 * count + id) as u32], seq![(8 * n + id) as u32]);
    let (one, two) = (a + geometry, b + geometry);
    assert(one[0] == 8 * count + id && two[0] == 8 * n + id);
    assert(one[0] % 8 == id && two[0] % 8 == id);
    assert(one[0] as nat / 8 == count && two[0] as nat / 8 == n);
    assert(pairs_of(one, 0) == n && pairs_of(two, 0) == n);
    lemma_pen_shift(a, geometry, 0, n, pen);
    lemma_pen_shift(b, geometry, 0, n, pen);
    let next = if id == 1 {
        pen.move_to(geometry, 0, n)
    } else {
        pen.line_to(geometry, 0, n)
    };
    lemma_drawn_shift(a, geometry, 2 * n as int, next);
    lemma_drawn_shift(b, geometry, 2 * n as int, next);
}

/// Closing where nothing is drawn gives an empty ring, and changes nothing of
/// what follows.
pub proof fn law_closing_nothing_gives_an_empty_ring(word: u32, geometry: Seq<u32>)
    requires
        word % 8 == 7,
    ensures
        rings_of(seq![word] + geometry) == seq![Seq::<TilePoint>::empty()] + rings_of(geometry),
{
    let pen = Pen { rings: Seq::empty(), ring: Seq::empty(), x: 0, y: 0 };
    let first = seq![Seq::<TilePoint>::empty()];
    lemma_drawn_shift(seq![word], geometry, 0, pen.close());
    assert(pen.close().rings =~= first + pen.rings);
    lemma_finished_rings_stay(geometry, 0, first, pen);
    let end = drawn_from(geometry, 0, pen);
    assert(first + end.rings.push(end.ring) =~= (first + end.rings).push(end.ring));
}

/// A line that nothing was moved to starts where its first step leads.
pub proof fn law_lines_need_no_move(dx: u32, dy: u32, geometry: Seq<u32>)
    ensures
        rings_of(seq![10u32, dx, dy] + geometry) == rings_of(seq![9u32, dx, dy] + geometry),
{
    let pen = Pen { rings: Seq::empty(), ring: Seq::empty(), x: 0, y: 0 };
    let (a, b) = (seq![10u32, dx, dy], seq![9u32, dx, dy]);
    let (one, two) = (a + geometry, b + geometry);
    assert(one[0] == 10 && one[1] == dx && one[2] == dy);
    assert(two[0] == 9 && two[1] == dx && two[2] == dy);
    assert(pairs_of(one, 0) == 1 && pairs_of(two, 0) == 1);
    assert(pen.line_to(one, 1, 0) == pen && pen.move_to(two, 1, 0) == pen);
    let next = pen.line_to(one, 1, 1);
    assert(next == pen.move_to(two, 1, 1));
    lemma_drawn_shift(a, geometry, 0, next);
    lemma_drawn_shift(b, geometry, 0, next);
}

/// The name of a geometry type.
pub open spec fn geom_type_name(t: i32) -> Seq<char> {
    if t == 1 {
        "Point"@
    } else if t == 2 {
        "LineString"@
    } else if t == 3 {
        "Polygon"@
    } else {
        "Unknown"@
    }
}

pub fn geom_type_str(t: i32) -> (r: &'static str)
    ensures
        r@ == geom_type_name(t),
{
    if t == 1 {
        "Point"
    } else if t == 2 {
        "LineString"
    } else if t == 3 {
        "Polygon"
    } else {
        "Unknown"
    }
}

// -- Bounding boxes --------------------------------------------------------

/// The smallest value of a coordinate, where there is none the largest `i32`.
pub open spec fn least_of(points: Seq<TilePoint>, x: bool) -> int
    decreases points.len(),
{
    if points.len() == 0 {
        i32::MAX as int
    } else {
        let rest = least_of(points.drop_last(), x);
        let v = if x {
            points.last().x as int
        } else {
            points.last().y as int
        };
        if v < rest {
            v
        } else {
            rest
        }
    }
}

/// The largest value of a coordinate, where there is none the smallest `i32`.
pub open spec fn greatest_of(points: Seq<TilePoint>, x: bool) -> int
    decreases points.len(),
{
    if points.len() == 0 {
        i32::MIN as int
    } else {
        let rest = greatest_of(points.drop_last(), x);
        let v = if x {
            points.last().x as int
        } else {
            points.last().y as int
        };
        if v > rest {
            v
        } else {
            rest
        }
    }
}

/// Compute bounding box for a set of points (used for a single ring): minimum
/// and maximum x, minimum and maximum y.
pub fn compute_bbox(points: &Vec<TilePoint>) -> (r: (i32, i32, i32, i32))
    ensures
        r.0 == least_of(points@, true),
        r.1 == greatest_of(points@, true),
        r.2 == least_of(points@, false),
        r.3 == greatest_of(points@, false),
{
    let mut min_x: i32 = i32::MAX;
    let mut max_x: i32 = i32::MIN;
    let mut min_y: i32 = i32::MAX;
    let mut max_y: i32 = i32::MIN;
    let mut i: usize = 0;
    assert(points@.take(0) =~= Seq::empty());
    while i < points.len()
        invariant
            i <= points@.len(),
            min_x == least_of(points@.take(i as int), true),
            max_x == greatest_of(points@.take(i as int), true),
            min_y == least_of(points@.take(i as int), false),
            max_y == greatest_of(points@.take(i as int), false),
        decreases points@.len() - i,
    {
        assert(points@.take(i + 1).drop_last() =~= points@.take(i as int));
        let p: TilePoint = points[i];
        if p.x < min_x {
            min_x = p.x;
        }
        if p.x > max_x {
            max_x = p.x;
        }
        if p.y < min_y {
            min_y = p.y;
        }
        if p.y > max_y {
            max_y = p.y;
        }
        i = i + 1;
    }
    assert(points@.take(i as int) =~= points@);
    (min_x, max_x, min_y, max_y)
}

/// Every point lies in the bounding box, and each side of the box touches one.
pub proof fn law_bbox_is_tight(points: Seq<TilePoint>, i: int)
    requires
        0 <= i < points.len(),
    ensures
        least_of(points, true) <= points[i].x <= greatest_of(points, true),
        least_of(points, false) <= points[i].y <= greatest_of(points, false),
        exists|k: int| 0 <= k < points.len() && (#[trigger] points[k]).x == least_of(points, true),
        exists|k: int|
            0 <= k < points.len() && (#[trigger] points[k]).x == greatest_of(points, true),
        exists|k: int| 0 <= k < points.len() && (#[trigger] points[k]).y == least_of(points, false),
        exists|k: int|
            0 <= k < points.len() && (#[trigger] points[k]).y == greatest_of(points, false),
    decreases points.len(),
{
    let rest = points.drop_last();
    let last = points.len() - 1;
    assert(points[last] == points.last());
    if rest.len() > 0 {
        law_bbox_is_tight(
            rest,
            if i < last {
                i
            } else {
                0
            },
        );
        assert forall|k: int| 0 <= k < rest.len() implies #[trigger] rest[k] == points[k] by {}
        let k1 = choose|k: int| 0 <= k < rest.len() && (#[trigger] rest[k]).x == least_of(rest, true);
        let k2 = choose|k: int|
            0 <= k < rest.len() && (#[trigger] rest[k]).x == greatest_of(rest, true);
        let k3 = choose|k: int|
            0 <= k < rest.len() && (#[trigger] rest[k]).y == least_of(rest, false);
        let k4 = choose|k: int|
            0 <= k < rest.len() && (#[trigger] rest[k]).y == greatest_of(rest, false);
        assert(points[k1] == rest[k1] && points[k2] == rest[k2] && points[k3] == rest[k3]
            && points[k4] == rest[k4]);
    }
}

// -- Properties and paint --------------------------------------------------

/// The JSON values of a list.
pub open spec fn value_models(values: Seq<MvtValue>) -> Seq<Json> {
    Seq::new(values.len(), |i: int| values[i].model())
}

/// The texts of a list.
pub open spec fn texts(keys: Seq<String>) -> Seq<Seq<char>> {
    Seq::new(keys.len(), |i: int| keys[i]@)
}

/// The properties that the first `n` pairs of tags stand for: each pair names a
/// key and a value; pairs that name none are left out.
pub open spec fn properties_of(
    tags: Seq<u32>,
    keys: Seq<Seq<char>>,
    values: Seq<Json>,
    n: nat,
) -> Seq<(Seq<char>, Json)>
    decreases n,
{
    if n == 0 {
        Seq::empty()
    } else {
        let before = properties_of(tags, keys, values, (n - 1) as nat);
        let k = tags[2 * (n - 1)] as int;
        let v = tags[2 * (n - 1) + 1] as int;
        if k < keys.len() && v < values.len() {
            before.push((keys[k], values[v]))
        } else {
            before
        }
    }
}

/// Decode feature properties from interleaved tag indices.
pub fn decode_properties(feature: &MvtFeature, layer: &MvtLayer) -> (r: Vec<(String, JsonValue)>)
    ensures
        entry_models(r@) == properties_of(
            feature.tags@,
            texts(layer.keys@),
            value_models(layer.values@),
            feature.tags@.len() / 2,
        ),
{
    let ghost keys = texts(layer.keys@);
    let ghost values = value_models(layer.values@);
    let tags: &Vec<u32> = &feature.tags;
    let len: usize = tags.len();
    let pairs: usize = len / 2;
    let mut props: Vec<(String, JsonValue)> = Vec::new();
    let mut n: usize = 0;
    assert(entry_models(props@) =~= Seq::empty());
    while n < pairs
        invariant
            n <= pairs,
            pairs == len / 2,
            len == tags@.len(),
            tags@ == feature.tags@,
            keys == texts(layer.keys@),
            values == value_models(layer.values@),
            entry_models(props@) == properties_of(tags@, keys, values, n as nat),
        decreases pairs - n,
    {
        let k: u32 = tags[2 * n];
        let v: u32 = tags[2 * n + 1];
        if (k as usize) < layer.keys.len() && (v as usize) < layer.values.len() {
            let ghost before = props@;
            props.push((layer.keys[k as usize].clone(), layer.values[v as usize].to_json_value()));
            assert(entry_models(props@) =~= entry_models(before).push(
                (keys[k as int], values[v as int]),
            ));
        }
        n = n + 1;
    }
    props
}

/// The second item of the first stop of a zoom-stop object.
pub open spec fn first_stop(val: Json) -> Option<Json> {
    match val.get("stops"@) {
        Some(stops) => match stops.as_array() {
            Some(list) => if list.len() > 0 {
                match list[0].as_array() {
                    Some(stop) => if stop.len() > 1 {
                        Some(stop[1])
                    } else {
                        None
                    },
                    None => None,
                }
            } else {
                None
            },
            None => None,
        },
        None => None,
    }
}

fn find_first_stop(val: &JsonValue) -> (r: Option<&JsonValue>)
    ensures
        match r {
            Some(v) => first_stop(val.model()) == Some(v.model()),
            None => first_stop(val.model()) is None,
        },
{
    match val.get("stops") {
        Some(stops) => match stops.as_array() {
            Some(list) => {
                if list.len() > 0 {
                    assert(crate::json::models(list@)[0] == list@[0].model());
                    match list[0].as_array() {
                        Some(stop) => {
                            if stop.len() > 1 {
                                assert(crate::json::models(stop@)[1] == stop@[1].model());
                                Some(&stop[1])
                            } else {
                                None
                            }
                        },
                        None => None,
                    }
                } else {
                    None
                }
            },
            None => None,
        },
        None => None,
    }
}

/// The color that a paint value stands for: a text, or the first stop of a
/// zoom-stop object; red where it is neither.
pub open spec fn color_text(val: Json) -> Seq<char> {
    match val {
        Json::Text(s) => s,
        _ => match first_stop(val) {
            Some(Json::Text(s)) => s,
            _ => "#ff0000"@,
        },
    }
}

/// Resolve a paint value to a color string, handling zoom-stop objects.
pub fn resolve_color_string(val: &JsonValue) -> (r: String)
    ensures
        r@ == color_text(val.model()),
{
    match val.as_str() {
        Some(s) => s.clone(),
        None => {
            if let Some(v) = find_first_stop(val) {
                if let Some(s) = v.as_str() {
                    return s.clone();
                }
            }
            "#ff0000".to_string()
        },
    }
}

/// The bits of 1.0.
pub const UNIT_WIDTH: u64 = 0x3ff0_0000_0000_0000;

/// The width that a paint value stands for: a number, or the first stop of a
/// zoom-stop object; 1 where it is neither.
pub open spec fn width_of(val: Option<Json>) -> Double {
    match val {
        Some(Json::Number(n)) => n.double(),
        Some(v) => match first_stop(v) {
            Some(Json::Number(n)) => n.double(),
            _ => Double { bits: UNIT_WIDTH },
        },
        None => Double { bits: UNIT_WIDTH },
    }
}

/// Resolve line-width, handling zoom-stop objects.
pub fn resolve_line_width(val: Option<&JsonValue>) -> (r: Double)
    ensures
        r == width_of(
            match val {
                Some(v) => Some(v.model()),
                None => None,
            },
        ),
{
    if let Some(v) = val {
        if let Some(d) = v.as_double() {
            return d;
        }
        if let Some(w) = find_first_stop(v) {
            if let Some(d) = w.as_double() {
                return d;
            }
        }
    }
    Double { bits: UNIT_WIDTH }
}

/// The paint value that gives a feature its color.
pub open spec fn color_value(paint: Seq<(Seq<char>, Json)>) -> Option<Json> {
    match lookup(paint, "line-color"@) {
        Some(v) => Some(v),
        None => match lookup(paint, "fill-color"@) {
            Some(v) => Some(v),
            None => lookup(paint, "text-color"@),
        },
    }
}

/// The palette entry of a feature: 0 where its style has no color.
pub open spec fn feature_color(paint: Seq<(Seq<char>, Json)>) -> u8 {
    match color_value(paint) {
        Some(v) => closest_color(parsed_color(color_text(v))),
        None => 0,
    }
}

fn resolve_color(paint: &Vec<(String, JsonValue)>) -> (r: ColorIdx)
    ensures
        r == feature_color(entry_models(paint@)),
{
    let value: Option<&JsonValue> = match find_value(paint, "line-color") {
        Some(v) => Some(v),
        None => match find_value(paint, "fill-color") {
            Some(v) => Some(v),
            None => find_value(paint, "text-color"),
        },
    };
    match value {
        Some(v) => {
            let text: String = resolve_color_string(v);
            let rgb: [u8; 3] = hex2rgb(text.as_str());
            rgb_to_xterm(rgb[0], rgb[1], rgb[2])
        },
        None => 0,
    }
}

/// The text of a property.
pub open spec fn text_property(props: Seq<(Seq<char>, Json)>, key: Seq<char>) -> Option<Seq<char>> {
    match lookup(props, key) {
        Some(v) => v.as_text(),
        None => None,
    }
}

/// The label of a feature: its name in the language, in English, its plain
/// name or its house number, whichever comes first.
pub open spec fn label_of(props: Seq<(Seq<char>, Json)>, language: Seq<char>) -> Option<Seq<char>> {
    match text_property(props, "name_"@ + language) {
        Some(s) => Some(s),
        None => match text_property(props, "name_en"@) {
            Some(s) => Some(s),
            None => match text_property(props, "name"@) {
                Some(s) => Some(s),
                None => text_property(props, "house_num"@),
            },
        },
    }
}

fn property_text(props: &Vec<(String, JsonValue)>, key: &str) -> (r: Option<String>)
    ensures
        text_model(r) == text_property(entry_models(props@), key@),
{
    match find_value(props, key) {
        Some(v) => match v.as_str() {
            Some(s) => Some(s.clone()),
            None => None,
        },
        None => None,
    }
}

fn resolve_label(props: &Vec<(String, JsonValue)>, language: &String) -> (r: Option<String>)
    ensures
        text_model(r) == label_of(entry_models(props@), language@),
{
    let key: String = "name_".to_string().concat(language.as_str());
    if let Some(s) = property_text(props, key.as_str()) {
        return Some(s);
    }
    if let Some(s) = property_text(props, "name_en") {
        return Some(s);
    }
    if let Some(s) = property_text(props, "name") {
        return Some(s);
    }
    property_text(props, "house_num")
}

/// The rank by which labels are placed.
pub open spec fn rank_of(props: Seq<(Seq<char>, Json)>) -> Option<int> {
    match lookup(props, "localrank"@) {
        Some(v) => v.as_i64(),
        None => match lookup(props, "scalerank"@) {
            Some(v) => v.as_i64(),
            None => None,
        },
    }
}

fn resolve_rank(props: &Vec<(String, JsonValue)>) -> (r: Option<i64>)
    ensures
        match r {
            Some(n) => rank_of(entry_models(props@)) == Some(n as int),
            None => rank_of(entry_models(props@)) is None,
        },
{
    match find_value(props, "localrank") {
        Some(v) => v.as_i64(),
        None => match find_value(props, "scalerank") {
            Some(v) => v.as_i64(),
            None => None,
        },
    }
}

// -- Features --------------------------------------------------------------

/// A styled feature ready for rendering, stored in a per-layer index.
#[derive(Debug)]
pub struct TileFeature {
    /// Source layer name.
    pub layer: String,
    /// Style layer type: "line", "fill", "symbol", "background".
    pub style_type: String,
    /// Style id (for minzoom/maxzoom checks during rendering).
    pub style_id: String,
    /// Minimum zoom for this feature's style.
    pub minzoom: Option<Double>,
    /// Maximum zoom for this feature's style.
    pub maxzoom: Option<Double>,
    /// xterm-256 color index.
    pub color: ColorIdx,
    /// Line width (for line features).
    pub line_width: Double,
    /// Text label (for symbol features).
    pub label: Option<String>,
    /// Sort order (localrank or scalerank).
    pub sort: Option<i64>,
    /// The geometry points (for line/symbol: single ring; for fill: multiple rings).
    pub points: Vec<Vec<TilePoint>>,
    /// Bounding box for spatial indexing.
    pub min_x: i32,
    pub max_x: i32,
    pub min_y: i32,
    pub max_y: i32,
}

/// What a [`TileFeature`] says.
pub struct FeatureModel {
    pub layer: Seq<char>,
    pub style_type: Seq<char>,
    pub style_id: Seq<char>,
    pub minzoom: Option<Double>,
    pub maxzoom: Option<Double>,
    pub color: u8,
    pub line_width: Double,
    pub label: Option<Seq<char>>,
    pub sort: Option<int>,
    pub points: Seq<Seq<TilePoint>>,
    /// Minimum and maximum x, minimum and maximum y.
    pub bbox: (int, int, int, int),
}

impl View for TileFeature {
    type V = FeatureModel;

    open spec fn view(&self) -> FeatureModel {
        FeatureModel {
            layer: self.layer@,
            style_type: self.style_type@,
            style_id: self.style_id@,
            minzoom: self.minzoom,
            maxzoom: self.maxzoom,
            color: self.color,
            line_width: self.line_width,
            label: text_model(self.label),
            sort: match self.sort {
                Some(n) => Some(n as int),
                None => None,
            },
            points: ring_views(self.points@),
            bbox: (
                self.min_x as int,
                self.max_x as int,
                self.min_y as int,
                self.max_y as int,
            ),
        }
    }
}

/// What the features of a list say.
pub open spec fn feature_models(features: Seq<TileFeature>) -> Seq<FeatureModel> {
    Seq::new(features.len(), |i: int| features[i]@)
}

/// The feature that a style makes of some rings, with the bounding box of the
/// first.
pub open spec fn styled_feature(
    layer: Seq<char>,
    style: LayerModel,
    label: Option<Seq<char>>,
    sort: Option<int>,
    rings: Seq<Seq<TilePoint>>,
) -> FeatureModel {
    FeatureModel {
        layer,
        style_type: style.layer_type,
        style_id: style.id,
        minzoom: style.minzoom,
        maxzoom: style.maxzoom,
        color: feature_color(style.paint),
        line_width: width_of(lookup(style.paint, "line-width"@)),
        label,
        sort,
        points: rings,
        bbox: (
            least_of(rings[0], true),
            greatest_of(rings[0], true),
            least_of(rings[0], false),
            greatest_of(rings[0], false),
        ),
    }
}

/// One feature for each of the first `n` rings that has any point.
pub open spec fn single_features(
    layer: Seq<char>,
    style: LayerModel,
    label: Option<Seq<char>>,
    sort: Option<int>,
    rings: Seq<Seq<TilePoint>>,
    n: nat,
) -> Seq<FeatureModel>
    decreases n,
{
    if n == 0 {
        Seq::empty()
    } else {
        let before = single_features(layer, style, label, sort, rings, (n - 1) as nat);
        if rings[n - 1].len() > 0 {
            before.push(styled_feature(layer, style, label, sort, seq![rings[n - 1]]))
        } else {
            before
        }
    }
}

/// The features that a style makes of a feature: one with all its rings for a
/// fill, one for each ring for everything else.
pub open spec fn features_of_style(
    layer: Seq<char>,
    style: LayerModel,
    props: Seq<(Seq<char>, Json)>,
    rings: Seq<Seq<TilePoint>>,
    language: Seq<char>,
) -> Seq<FeatureModel> {
    let label = if style.layer_type == "symbol"@ {
        label_of(props, language)
    } else {
        None
    };
    let sort = rank_of(props);
    if style.layer_type == "fill"@ {
        if rings.len() > 0 {
            seq![styled_feature(layer, style, label, sort, rings)]
        } else {
            Seq::empty()
        }
    } else {
        single_features(layer, style, label, sort, rings, rings.len())
    }
}

/// The way in which a geometry is drawn by default: an area is filled, a point is
/// a symbol, anything else a line.
pub open spec fn default_type(ftype: Seq<char>) -> Seq<char> {
    if ftype == "Polygon"@ {
        "fill"@
    } else if ftype == "Point"@ {
        "symbol"@
    } else {
        "line"@
    }
}

/// The style of features without a style sheet: nothing but the way in which
/// they are drawn.
pub open spec fn default_style(ftype: Seq<char>) -> LayerModel {
    LayerModel {
        id: ""@,
        layer_type: default_type(ftype),
        source_layer: None,
        filter: Rule::All,
        raw_filter: None,
        paint: Seq::empty(),
        minzoom: None,
        maxzoom: None,
    }
}

fn make_default_style(ftype: &str) -> (r: StyleLayer)
    ensures
        r@ == default_style(ftype@),
{
    let layer_type: &str = if text_eq(ftype, "Polygon") {
        "fill"
    } else if text_eq(ftype, "Point") {
        "symbol"
    } else {
        "line"
    };
    let r: StyleLayer = StyleLayer {
        id: "".to_string(),
        layer_type: layer_type.to_string(),
        source_layer: None,
        filter: Filter::All,
        raw_filter: None,
        paint: Vec::new(),
        minzoom: None,
        maxzoom: None,
    };
    assert(r@.paint =~= Seq::empty());
    r
}

/// The features that a style sheet makes of a feature of a layer: none where no
/// style applies. Without a style sheet the default style does.
pub open spec fn features_of(
    layer: MvtLayer,
    feature: MvtFeature,
    style: Option<StyleModel>,
    language: Seq<char>,
) -> Seq<FeatureModel> {
    let props = properties_of(
        feature.tags@,
        texts(layer.keys@),
        value_models(layer.values@),
        feature.tags@.len() / 2,
    );
    let ftype = geom_type_name(
        match feature.geom_type {
            Some(t) => t,
            None => 0,
        },
    );
    match style {
        Some(s) => match style_index(s.layers, layer.name@, props, ftype) {
            Some(i) => features_of_style(
                layer.name@,
                s.layers[i],
                props,
                rings_of(feature.geometry@),
                language,
            ),
            None => Seq::empty(),
        },
        None => features_of_style(
            layer.name@,
            default_style(ftype),
            props,
            rings_of(feature.geometry@),
            language,
        ),
    }
}

/// Without a style sheet every ring that has any point is kept.
pub proof fn law_unstyled_features_are_kept(
    layer: MvtLayer,
    feature: MvtFeature,
    language: Seq<char>,
    i: int,
)
    requires
        0 <= i < rings_of(feature.geometry@).len(),
        rings_of(feature.geometry@)[i].len() > 0,
    ensures
        exists|k: int|
            0 <= k < features_of(layer, feature, None, language).len() && (
            #[trigger] features_of(layer, feature, None, language)[k]).points.contains(
                rings_of(feature.geometry@)[i],
            ),
{
    let props = properties_of(
        feature.tags@,
        texts(layer.keys@),
        value_models(layer.values@),
        feature.tags@.len() / 2,
    );
    let ftype = geom_type_name(
        match feature.geom_type {
            Some(t) => t,
            None => 0,
        },
    );
    let style = default_style(ftype);
    let rings = rings_of(feature.geometry@);
    let label = if style.layer_type == "symbol"@ {
        label_of(props, language)
    } else {
        None
    };
    let features = features_of(layer, feature, None, language);
    if style.layer_type == "fill"@ {
        assert(features[0].points.contains(rings[i]));
    } else {
        lemma_ring_is_kept(
            layer.name@,
            style,
            label,
            rank_of(props),
            rings,
            rings.len(),
            i,
        );
    }
}

proof fn lemma_ring_is_kept(
    layer: Seq<char>,
    style: LayerModel,
    label: Option<Seq<char>>,
    sort: Option<int>,
    rings: Seq<Seq<TilePoint>>,
    n: nat,
    i: int,
)
    requires
        0 <= i < n <= rings.len(),
        rings[i].len() > 0,
    ensures
        exists|k: int|
            0 <= k < single_features(layer, style, label, sort, rings, n).len() && (
            #[trigger] single_features(layer, style, label, sort, rings, n)[k]).points.contains(
                rings[i],
            ),
    decreases n,
{
    let before = single_features(layer, style, label, sort, rings, (n - 1) as nat);
    let all = single_features(layer, style, label, sort, rings, n);
    if i == n - 1 {
        assert(all[before.len() as int].points[0] == rings[i]);
    } else {
        lemma_ring_is_kept(layer, style, label, sort, rings, (n - 1) as nat, i);
        let k = choose|k: int|
            0 <= k < before.len() && (#[trigger] before[k]).points.contains(rings[i]);
        assert(all[k] == before[k]);
    }
}

/// The features that a style sheet makes of the first `n` features of a layer.
pub open spec fn layer_features(
    layer: MvtLayer,
    style: Option<StyleModel>,
    language: Seq<char>,
    n: nat,
) -> Seq<FeatureModel>
    decreases n,
{
    if n == 0 {
        Seq::empty()
    } else {
        layer_features(layer, style, language, (n - 1) as nat) + features_of(
            layer,
            layer.features@[n - 1],
            style,
            language,
        )
    }
}

/// A parsed layer from a tile: extent + spatial index of features.
pub struct TileLayer {
    /// Tile extent (usually 4096).
    pub extent: u32,
    /// The styled features.
    pub features: Vec<TileFeature>,
    /// Spatial index of their bounding boxes.
    pub tree: BoxTree,
}

/// The box of a feature in the index.
pub open spec fn feature_box(f: TileFeature) -> Rect {
    Rect {
        x0: f.min_x as i64,
        y0: f.min_y as i64,
        x1: f.max_x as i64,
        y1: f.max_y as i64,
    }
}

impl TileLayer {
    /// The index holds the bounding boxes of the features.
    pub open spec fn wf(&self) -> bool {
        &&& tree_boxes(self.tree).len() == self.features@.len()
        &&& forall|i: int|
            0 <= i < self.features@.len() ==> #[trigger] tree_boxes(self.tree)[i] == feature_box(
                self.features@[i],
            )
    }
}

/// A fully parsed, styled, and spatially indexed vector tile: its layers by
/// source-layer name. Of two layers with one name the later one counts.
pub struct Tile {
    pub layers: Vec<(String, TileLayer)>,
}

impl Tile {
    pub open spec fn wf(&self) -> bool {
        forall|i: int| 0 <= i < self.layers@.len() ==> (#[trigger] self.layers@[i]).1.wf()
    }
}

/// The place of the layer that counts under a name.
pub open spec fn layer_named(layers: Seq<(String, TileLayer)>, name: Seq<char>) -> Option<int>
    decreases layers.len(),
{
    if layers.len() == 0 {
        None
    } else if layers.last().0@ == name {
        Some(layers.len() - 1)
    } else {
        layer_named(layers.drop_last(), name)
    }
}

impl Tile {
    /// The place of the layer with this name.
    pub fn layer_index(&self, name: &str) -> (r: Option<usize>)
        ensures
            match r {
                Some(i) => i < self.layers@.len() && layer_named(self.layers@, name@) == Some(
                    i as int,
                ),
                None => layer_named(self.layers@, name@) is None,
            },
    {
        let mut i: usize = self.layers.len();
        assert(self.layers@.take(i as int) =~= self.layers@);
        while i > 0
            invariant
                i <= self.layers@.len(),
                layer_named(self.layers@, name@) == layer_named(self.layers@.take(i as int), name@),
            decreases i,
        {
            assert(self.layers@.take(i as int).drop_last() =~= self.layers@.take(i - 1));
            if text_eq(self.layers[i - 1].0.as_str(), name) {
                return Some(i - 1);
            }
            i = i - 1;
        }
        None
    }
}

/// Errors that can occur when loading a tile.
#[derive(Debug)]
pub enum TileError {
    Decompress(String),
    ProtobufDecode(String),
}

impl TileError {
    /// What went wrong, in words.
    pub fn message(&self) -> (r: String)
        ensures
            r@ == match self {
                TileError::Decompress(s) => "failed to decompress tile: "@ + s@,
                TileError::ProtobufDecode(s) => "failed to decode protobuf: "@ + s@,
            },
    {
        match self {
            TileError::Decompress(s) => "failed to decompress tile: ".to_string().concat(
                s.as_str(),
            ),
            TileError::ProtobufDecode(s) => "failed to decode protobuf: ".to_string().concat(
                s.as_str(),
            ),
        }
    }
}

/// What `GzDecoder` of the `flate2` crate makes of gzipped bytes, or the words
/// in which it refuses them.
pub uninterp spec fn gunzipped(bytes: Seq<u8>) -> Result<Seq<u8>, Seq<char>>;

/// `GzDecoder::new` of the `flate2` crate on a slice, read to its end with
/// `read_to_end`. What comes out, the words of an error too, depends on the
/// bytes alone; how bytes are unpacked is not stated here.
#[verifier::external_body]
fn gunzip(buffer: &Vec<u8>) -> (r: Result<Vec<u8>, String>)
    ensures
        match r {
            Ok(data) => gunzipped(buffer@) == Ok::<Seq<u8>, Seq<char>>(data@),
            Err(words) => gunzipped(buffer@) == Err::<Seq<u8>, Seq<char>>(words@),
        },
{
    let mut data = Vec::new();
    match GzDecoder::new(buffer.as_slice()).read_to_end(&mut data) {
        Ok(_) => Ok(data),
        Err(e) => Err(e.to_string()),
    }
}

/// Whether bytes start like a gzip file.
pub open spec fn is_gzip(bytes: Seq<u8>) -> bool {
    bytes.len() >= 2 && bytes[0] == 0x1f && bytes[1] == 0x8b
}

impl Tile {
    /// Decompress if gzipped, otherwise return as-is.
    pub fn unzip_if_needed(buffer: Vec<u8>) -> (r: Result<Vec<u8>, TileError>)
        ensures
            match r {
                Ok(data) => if is_gzip(buffer@) {
                    gunzipped(buffer@) == Ok::<Seq<u8>, Seq<char>>(data@)
                } else {
                    data@ == buffer@
                },
                Err(TileError::Decompress(words)) => is_gzip(buffer@) && gunzipped(buffer@)
                    == Err::<Seq<u8>, Seq<char>>(words@),
                Err(TileError::ProtobufDecode(_)) => false,
            },
    {
        if buffer.len() >= 2 && buffer[0] == 0x1f && buffer[1] == 0x8b {
            match gunzip(&buffer) {
                Ok(data) => Ok(data),
                Err(e) => Err(TileError::Decompress(e)),
            }
        } else {
            Ok(buffer)
        }
    }

    /// Produce a styled, spatially indexed `Tile` from a tile that was decoded,
    /// or could not be.
    ///
    /// If `styler` is `Some`, features that don't match any style rule are
    /// discarded. If it is `None`, all features are kept with default styling.
    pub fn load(
        decoded: Result<MvtTile, String>,
        styler: Option<&Styler>,
        config: &crate::config::MapConfig,
    ) -> (r: Result<Tile, TileError>)
        ensures
            match (decoded, r) {
                (Ok(mvt), Ok(tile)) => tile.wf() && is_styled_tile(
                    mvt,
                    style_model(styler),
                    config@.language,
                    tile,
                ),
                (Err(e), Err(TileError::ProtobufDecode(s))) => s == e,
                _ => false,
            },
    {
        match decoded {
            Ok(mvt) => Ok(Tile { layers: Self::load_layers(&mvt, styler, config) }),
            Err(e) => Err(TileError::ProtobufDecode(e)),
        }
    }

    /// Parse all layers, apply styling, build spatial indices.
    fn load_layers(
        mvt: &MvtTile,
        styler: Option<&Styler>,
        config: &crate::config::MapConfig,
    ) -> (r: Vec<(String, TileLayer)>)
        ensures
            (Tile { layers: r }).wf(),
            is_styled_tile(*mvt, style_model(styler), config@.language, Tile { layers: r }),
    {
        let mut out: Vec<(String, TileLayer)> = Vec::new();
        let mut i: usize = 0;
        while i < mvt.layers.len()
            invariant
                i <= mvt.layers@.len(),
                out@.len() == i,
                forall|k: int| 0 <= k < i ==> (#[trigger] out@[k]).1.wf(),
                forall|k: int|
                    0 <= k < i ==> is_styled_layer(
                        mvt.layers@[k],
                        style_model(styler),
                        config@.language,
                        #[trigger] out@[k],
                    ),
            decreases mvt.layers@.len() - i,
        {
            let layer: &MvtLayer = &mvt.layers[i];
            let extent: u32 = match layer.extent {
                Some(e) => e,
                None => 4096,
            };
            let features: Vec<TileFeature> = style_features(layer, styler, &config.language);
            let tree: BoxTree = index_features(&features);
            out.push((layer.name.clone(), TileLayer { extent, features, tree }));
            i = i + 1;
        }
        out
    }
}

pub open spec fn style_model(styler: Option<&Styler>) -> Option<StyleModel> {
    match styler {
        Some(s) => Some(s@),
        None => None,
    }
}

/// Whether `out` is the styled layer of a decoded one.
pub open spec fn is_styled_layer(
    layer: MvtLayer,
    style: Option<StyleModel>,
    language: Seq<char>,
    out: (String, TileLayer),
) -> bool {
    &&& out.0@ == layer.name@
    &&& out.1.extent == match layer.extent {
        Some(e) => e,
        None => 4096,
    }
    &&& feature_models(out.1.features@) == layer_features(
        layer,
        style,
        language,
        layer.features@.len(),
    )
}

/// Whether `tile` is the styled tile of a decoded one, layer by layer.
pub open spec fn is_styled_tile(
    mvt: MvtTile,
    style: Option<StyleModel>,
    language: Seq<char>,
    tile: Tile,
) -> bool {
    &&& tile.layers@.len() == mvt.layers@.len()
    &&& forall|k: int|
        0 <= k < tile.layers@.len() ==> is_styled_layer(
            mvt.layers@[k],
            style,
            language,
            #[trigger] tile.layers@[k],
        )
}

fn index_features(features: &Vec<TileFeature>) -> (r: BoxTree)
    ensures
        tree_boxes(r).len() == features@.len(),
        forall|i: int|
            0 <= i < features@.len() ==> #[trigger] tree_boxes(r)[i] == feature_box(features@[i]),
{
    let mut boxes: Vec<Rect> = Vec::new();
    let mut i: usize = 0;
    while i < features.len()
        invariant
            i <= features@.len(),
            boxes@.len() == i,
            forall|k: int|
                0 <= k < i ==> #[trigger] boxes@[k] == feature_box(features@[k])
                    && boxes@[k].in_limits(),
        decreases features@.len() - i,
    {
        let f: &TileFeature = &features[i];
        boxes.push(
            Rect {
                x0: f.min_x as i64,
                y0: f.min_y as i64,
                x1: f.max_x as i64,
                y1: f.max_y as i64,
            },
        );
        i = i + 1;
    }
    BoxTree::bulk_load(&boxes)
}

fn style_features(layer: &MvtLayer, styler: Option<&Styler>, language: &String) -> (r: Vec<
    TileFeature,
>)
    ensures
        feature_models(r@) == layer_features(
            *layer,
            style_model(styler),
            language@,
            layer.features@.len(),
        ),
{
    let mut out: Vec<TileFeature> = Vec::new();
    let mut i: usize = 0;
    assert(feature_models(out@) =~= Seq::empty());
    while i < layer.features.len()
        invariant
            i <= layer.features@.len(),
            feature_models(out@) == layer_features(
                *layer,
                style_model(styler),
                language@,
                i as nat,
            ),
        decreases layer.features@.len() - i,
    {
        let ghost before = feature_models(out@);
        let feature: &MvtFeature = &layer.features[i];
        let type_str: &str = geom_type_str(
            match feature.geom_type {
                Some(t) => t,
                None => 0,
            },
        );
        let props: Vec<(String, JsonValue)> = decode_properties(feature, layer);
        assert(before + Seq::<FeatureModel>::empty() =~= before);
        if let Some(s) = styler {
            if let Some(style) = s.get_style_for(layer.name.as_str(), &props, type_str) {
                push_features(&mut out, &layer.name, style, &props, &feature.geometry, language);
            }
        } else {
            let style: StyleLayer = make_default_style(type_str);
            push_features(&mut out, &layer.name, &style, &props, &feature.geometry, language);
        }
        i = i + 1;
    }
    out
}

fn push_features(
    out: &mut Vec<TileFeature>,
    layer: &String,
    style: &StyleLayer,
    props: &Vec<(String, JsonValue)>,
    geometry: &Vec<u32>,
    language: &String,
)
    ensures
        feature_models(final(out)@) == feature_models(old(out)@) + features_of_style(
            layer@,
            style@,
            entry_models(props@),
            rings_of(geometry@),
            language@,
        ),
{
    let label: Option<String> = if text_eq(style.layer_type.as_str(), "symbol") {
        resolve_label(props, language)
    } else {
        None
    };
    let sort: Option<i64> = resolve_rank(props);
    let rings: Vec<Vec<TilePoint>> = decode_geometry(geometry);
    let ghost all = ring_views(rings@);
    let ghost before = feature_models(out@);
    let ghost label_text = text_model(label);
    let ghost rank = rank_of(entry_models(props@));
    if text_eq(style.layer_type.as_str(), "fill") {
        if rings.len() > 0 {
            let ghost list = out@;
            out.push(make_feature(layer, style, label, sort, rings));
            proof {
                assert(feature_models(out@) =~= before + seq![
                    styled_feature(layer@, style@, label_text, rank, all),
                ]);
            }
        } else {
            assert(before + Seq::<FeatureModel>::empty() =~= before);
        }
        return;
    }
    let mut k: usize = 0;
    assert(before + single_features(layer@, style@, label_text, rank, all, 0) =~= before);
    while k < rings.len()
        invariant
            k <= rings@.len(),
            all == ring_views(rings@),
            label_text == text_model(label),
            match sort {
                Some(n) => rank == Some(n as int),
                None => rank is None,
            },
            feature_models(out@) == before + single_features(
                layer@,
                style@,
                label_text,
                rank,
                all,
                k as nat,
            ),
        decreases rings@.len() - k,
    {
        let ring: &Vec<TilePoint> = &rings[k];
        assert(all[k as int] == ring@);
        if ring.len() > 0 {
            let mut single: Vec<Vec<TilePoint>> = Vec::new();
            single.push(copy_ring(ring));
            let ghost list = feature_models(out@);
            let ghost single_views = ring_views(single@);
            let own_label: Option<String> = match &label {
                Some(s) => Some(s.clone()),
                None => None,
            };
            let f: TileFeature = make_feature(layer, style, own_label, sort, single);
            out.push(f);
            proof {
                assert(single_views =~= seq![all[k as int]]);
                assert(feature_models(out@) =~= list.push(f@));
                assert(feature_models(out@) =~= before + single_features(
                    layer@,
                    style@,
                    label_text,
                    rank,
                    all,
                    k as nat,
                ).push(f@));
            }
        }
        k = k + 1;
    }
}

fn copy_ring(ring: &Vec<TilePoint>) -> (r: Vec<TilePoint>)
    ensures
        r@ == ring@,
{
    let mut out: Vec<TilePoint> = Vec::new();
    let mut i: usize = 0;
    while i < ring.len()
        invariant
            i <= ring@.len(),
            out@ == ring@.take(i as int),
        decreases ring@.len() - i,
    {
        out.push(ring[i]);
        assert(out@ =~= ring@.take(i + 1));
        i = i + 1;
    }
    assert(out@ =~= ring@);
    out
}

/// Create a feature of some rings, with the bounding box of the first.
fn make_feature(
    layer: &String,
    style: &StyleLayer,
    label: Option<String>,
    sort: Option<i64>,
    rings: Vec<Vec<TilePoint>>,
) -> (r: TileFeature)
    requires
        rings@.len() > 0,
    ensures
        r@ == styled_feature(
            layer@,
            style@,
            text_model(label),
            match sort {
                Some(n) => Some(n as int),
                None => None,
            },
            ring_views(rings@),
        ),
{
    let (min_x, max_x, min_y, max_y): (i32, i32, i32, i32) = compute_bbox(&rings[0]);
    TileFeature {
        layer: layer.clone(),
        style_type: style.layer_type.clone(),
        style_id: style.id.clone(),
        minzoom: style.minzoom,
        maxzoom: style.maxzoom,
        color: resolve_color(&style.paint),
        line_width: resolve_line_width(find_value(&style.paint, "line-width")),
        label,
        sort,
        points: rings,
        min_x,
        max_x,
        min_y,
        max_y,
    }
}

// -- What features keep of their tile --------------------------------------

/// A value holds what its one field holds: a text its characters, a number of
/// any kind its value, a truth value itself, and nothing where none is set.
pub proof fn law_values_keep_what_they_hold(value: MvtValue)
    ensures
        value.string_value matches Some(s) ==> value.model() == Json::Text(s@),
        value.string_value is None && value.float_value is None ==> (value.double_value matches Some(
            d,
        ) ==> d.finite() ==> value.model() == Json::Number(JsonNumber::Float(d))),
        value.string_value is None ==> (value.float_value matches Some(d) ==> d.finite()
            ==> value.model() == Json::Number(JsonNumber::Float(d))),
        value.string_value is None && value.float_value is None && value.double_value is None
            ==> {
            &&& value.int_value matches Some(i) ==> value.model().as_i64() == Some(i as int)
            &&& value.int_value is None ==> (value.uint_value matches Some(u) ==> value.model()
                == Json::Number(JsonNumber::PosInt(u)))
            &&& value.int_value is None && value.uint_value is None ==> (
            value.sint_value matches Some(i) ==> value.model().as_i64() == Some(i as int))
            &&& value.int_value is None && value.uint_value is None && value.sint_value is None
                ==> (value.bool_value matches Some(b) ==> value.model() == Json::Bool(b)) && (
            value.bool_value is None ==> value.model() == Json::Null)
        },
{
}

/// A pair of tags adds the key that its first number names with the value that
/// its second number names, after all properties of the pairs in front of it; a
/// pair that names no key or no value adds nothing.
pub proof fn law_tags_name_keys_and_values(
    tags: Seq<u32>,
    k: u32,
    v: u32,
    keys: Seq<Seq<char>>,
    values: Seq<Json>,
)
    requires
        tags.len() % 2 == 0,
    ensures
        ({
            let before = properties_of(tags, keys, values, tags.len() / 2);
            let longer = tags.push(k).push(v);
            let after = properties_of(longer, keys, values, longer.len() / 2);
            &&& k < keys.len() && v < values.len() ==> after == before.push(
                (keys[k as int], values[v as int]),
            )
            &&& k >= keys.len() || v >= values.len() ==> after == before
        }),
        properties_of(Seq::empty(), keys, values, 0).len() == 0,
{
    let longer = tags.push(k).push(v);
    let n = tags.len() / 2;
    lemma_first_tags(tags, longer, keys, values, n);
    assert(longer.len() / 2 == n + 1);
    assert(longer[2 * n as int] == k && longer[2 * n as int + 1] == v);
}

proof fn lemma_first_tags(
    tags: Seq<u32>,
    longer: Seq<u32>,
    keys: Seq<Seq<char>>,
    values: Seq<Json>,
    n: nat,
)
    requires
        2 * n <= tags.len() <= longer.len(),
        forall|i: int| 0 <= i < tags.len() ==> #[trigger] tags[i] == longer[i],
    ensures
        properties_of(tags, keys, values, n) == properties_of(longer, keys, values, n),
    decreases n,
{
    if n > 0 {
        lemma_first_tags(tags, longer, keys, values, (n - 1) as nat);
        assert(tags[2 * (n - 1)] == longer[2 * (n - 1)]);
        assert(tags[2 * (n - 1) + 1] == longer[2 * (n - 1) + 1]);
    }
}

/// A color is the text that says it, a width the number that does; with stops it
/// is what the first of them says for its zoom level.
pub proof fn law_paint_values_are_taken_as_they_are(
    text: Seq<char>,
    number: JsonNumber,
    entries: Seq<(Seq<char>, Json)>,
    i: int,
    stops: Seq<Json>,
    stop: Seq<Json>,
)
    ensures
        color_text(Json::Text(text)) == text,
        width_of(Some(Json::Number(number))) == number.double(),
        counts(entries, i) && entries[i] == ("stops"@, Json::Array(stops)) && stops.len() > 0
            && stops[0] == Json::Array(stop) && stop.len() > 1 ==> {
            &&& stop[1] matches Json::Text(s) ==> color_text(Json::Object(entries)) == s
            &&& stop[1] matches Json::Number(n) ==> width_of(Some(Json::Object(entries)))
                == n.double()
        },
        lacks(entries, "stops"@) ==> color_text(Json::Object(entries)) == "#ff0000"@ && width_of(
            Some(Json::Object(entries)),
        ).value() == one(),
        width_of(None).value() == one(),
{
    law_last_entry_counts(entries, i, "stops"@);
    lemma_one();
}

/// A feature has the color of its line, without one that of its fill, without
/// either that of its text, and without any none.
pub proof fn law_line_colors_come_first(paint: Seq<(Seq<char>, Json)>, i: int)
    ensures
        counts(paint, i) && (paint[i].0 == "line-color"@ || (paint[i].0 == "fill-color"@ && lacks(
            paint,
            "line-color"@,
        )) || (paint[i].0 == "text-color"@ && lacks(paint, "line-color"@) && lacks(
            paint,
            "fill-color"@,
        ))) ==> feature_color(paint) == closest_color(parsed_color(color_text(paint[i].1))),
        lacks(paint, "line-color"@) && lacks(paint, "fill-color"@) && lacks(paint, "text-color"@)
            ==> feature_color(paint) == 0,
{
    law_last_entry_counts(paint, i, "line-color"@);
    law_last_entry_counts(paint, i, "fill-color"@);
    law_last_entry_counts(paint, i, "text-color"@);
}

/// The label of a feature is its name in the language of the map; where it has
/// none, its English name; then its plain name; then its house number.
pub proof fn law_labels_are_in_the_language_of_the_map(
    props: Seq<(Seq<char>, Json)>,
    i: int,
    text: Seq<char>,
    language: Seq<char>,
)
    ensures
        counts(props, i) && props[i].1 == Json::Text(text) && (props[i].0 == "name_"@ + language || (
        props[i].0 == "name_en"@ && lacks(props, "name_"@ + language)) || (props[i].0 == "name"@
            && lacks(props, "name_"@ + language) && lacks(props, "name_en"@)) || (props[i].0
            == "house_num"@ && lacks(props, "name_"@ + language) && lacks(props, "name_en"@)
            && lacks(props, "name"@))) ==> label_of(props, language) == Some(text),
        lacks(props, "name_"@ + language) && lacks(props, "name_en"@) && lacks(props, "name"@)
            && lacks(props, "house_num"@) ==> label_of(props, language) is None,
{
    law_last_entry_counts(props, i, "name_"@ + language);
    law_last_entry_counts(props, i, "name_en"@);
    law_last_entry_counts(props, i, "name"@);
    law_last_entry_counts(props, i, "house_num"@);
}

/// The rank of a feature is its local rank, without one its scale rank, as far
/// as it is a whole number.
pub proof fn law_local_ranks_come_first(props: Seq<(Seq<char>, Json)>, i: int, rank: i64)
    ensures
        counts(props, i) && (props[i].0 == "localrank"@ || (props[i].0 == "scalerank"@ && lacks(
            props,
            "localrank"@,
        ))) && (props[i].1 == Json::Number(JsonNumber::NegInt(rank)) || (rank >= 0 && props[i].1
            == Json::Number(JsonNumber::PosInt(rank as u64)))) ==> rank_of(props) == Some(
            rank as int,
        ),
        lacks(props, "localrank"@) && lacks(props, "scalerank"@) ==> rank_of(props) is None,
{
    law_last_entry_counts(props, i, "localrank"@);
    law_last_entry_counts(props, i, "scalerank"@);
}

/// Whether a feature has what its style gives it, and the tightest box around
/// its first ring.
pub open spec fn has_its_style(f: TileFeature, layer: Seq<char>, style: LayerModel) -> bool {
    &&& f.layer@ == layer
    &&& f.style_type@ == style.layer_type
    &&& f.style_id@ == style.id
    &&& f.minzoom == style.minzoom
    &&& f.maxzoom == style.maxzoom
    &&& f.color == feature_color(style.paint)
    &&& f.points@.len() > 0 && f.points@[0]@.len() > 0 ==> {
        let ring = f.points@[0]@;
        &&& forall|i: int|
            0 <= i < ring.len() ==> f.min_x <= (#[trigger] ring[i]).x <= f.max_x && f.min_y
                <= ring[i].y <= f.max_y
        &&& exists|i: int| 0 <= i < ring.len() && (#[trigger] ring[i]).x == f.min_x
        &&& exists|i: int| 0 <= i < ring.len() && (#[trigger] ring[i]).x == f.max_x
        &&& exists|i: int| 0 <= i < ring.len() && (#[trigger] ring[i]).y == f.min_y
        &&& exists|i: int| 0 <= i < ring.len() && (#[trigger] ring[i]).y == f.max_y
    }
}

proof fn lemma_has_its_style(
    f: TileFeature,
    layer: Seq<char>,
    style: LayerModel,
    label: Option<Seq<char>>,
    sort: Option<int>,
    rings: Seq<Seq<TilePoint>>,
)
    requires
        f@ == styled_feature(layer, style, label, sort, rings),
    ensures
        has_its_style(f, layer, style),
        f.points@.len() == rings.len(),
        forall|i: int| 0 <= i < rings.len() ==> (#[trigger] f.points@[i])@ == rings[i],
        text_model(f.label) == label,
        sort matches Some(n) ==> f.sort matches Some(m) && m == n,
        sort is None ==> f.sort is None,
{
    assert(ring_views(f.points@) == rings);
    assert(ring_views(f.points@).len() == f.points@.len());
    assert forall|i: int| 0 <= i < rings.len() implies (#[trigger] f.points@[i])@ == rings[i] by {
        assert(ring_views(f.points@)[i] == f.points@[i]@);
    }
    if rings.len() > 0 && rings[0].len() > 0 {
        law_bbox_is_tight(rings[0], 0);
        assert forall|i: int| 0 <= i < rings[0].len() implies f.min_x <= (#[trigger] rings[0][i]).x
            <= f.max_x && f.min_y <= rings[0][i].y <= f.max_y by {
            law_bbox_is_tight(rings[0], i);
        }
        let ring = rings[0];
        let k1 = choose|k: int|
            0 <= k < ring.len() && (#[trigger] ring[k]).x == least_of(ring, true);
        let k2 = choose|k: int|
            0 <= k < ring.len() && (#[trigger] ring[k]).x == greatest_of(ring, true);
        let k3 = choose|k: int|
            0 <= k < ring.len() && (#[trigger] ring[k]).y == least_of(ring, false);
        let k4 = choose|k: int|
            0 <= k < ring.len() && (#[trigger] ring[k]).y == greatest_of(ring, false);
        assert(ring[k1].x == f.min_x && ring[k2].x == f.max_x && ring[k3].y == f.min_y && ring[k4].y
            == f.max_y);
    }
}

/// An area is one feature with all its rings.
pub proof fn law_areas_are_one_feature(
    layer: Seq<char>,
    style: LayerModel,
    props: Seq<(Seq<char>, Json)>,
    rings: Seq<Seq<TilePoint>>,
    language: Seq<char>,
    features: Seq<TileFeature>,
)
    requires
        style.layer_type == "fill"@,
        feature_models(features) == features_of_style(layer, style, props, rings, language),
    ensures
        rings.len() == 0 ==> features.len() == 0,
        rings.len() > 0 ==> {
            &&& features.len() == 1
            &&& has_its_style(features[0], layer, style)
            &&& features[0].points@.len() == rings.len()
            &&& forall|i: int|
                0 <= i < rings.len() ==> (#[trigger] features[0].points@[i])@ == rings[i]
            &&& features[0].label is None
        },
{
    lemma_style_types_differ();
    assert(feature_models(features).len() == features.len());
    if rings.len() > 0 {
        assert(feature_models(features)[0] == features[0]@);
        lemma_has_its_style(features[0], layer, style, None, rank_of(props), rings);
    }
}

proof fn lemma_style_types_differ()
    ensures
        "fill"@ != "symbol"@,
        "line"@ != "symbol"@,
        "line"@ != "fill"@,
{
    reveal_strlit("fill");
    reveal_strlit("symbol");
    reveal_strlit("line");
    assert("fill"@.len() == 4 && "symbol"@.len() == 6 && "line"@.len() == 4);
    assert("fill"@[0] == 'f' && "line"@[0] == 'l');
}

/// Lines and symbols are one feature for each ring that has any point, in the
/// order of the rings. A symbol has the label of its properties, a line none;
/// both have their rank.
pub proof fn law_lines_and_symbols_are_one_feature_a_ring(
    layer: Seq<char>,
    style: LayerModel,
    props: Seq<(Seq<char>, Json)>,
    rings: Seq<Seq<TilePoint>>,
    language: Seq<char>,
    features: Seq<TileFeature>,
) -> (origins: Seq<int>)
    requires
        style.layer_type != "fill"@,
        feature_models(features) == features_of_style(layer, style, props, rings, language),
    ensures
        crate::styler::picks(origins, rings.len(), |k: int| rings[k].len() > 0),
        origins.len() == features.len(),
        forall|k: int|
            0 <= k < features.len() ==> {
                let f = #[trigger] features[k];
                &&& has_its_style(f, layer, style)
                &&& f.points@.len() == 1
                &&& f.points@[0]@ == rings[origins[k]]
                &&& style.layer_type == "symbol"@ ==> text_model(f.label) == label_of(
                    props,
                    language,
                )
                &&& style.layer_type != "symbol"@ ==> f.label is None
                &&& rank_of(props) matches Some(n) ==> f.sort matches Some(m) && m == n
                &&& rank_of(props) is None ==> f.sort is None
            },
{
    let label = if style.layer_type == "symbol"@ {
        label_of(props, language)
    } else {
        None
    };
    let sort = rank_of(props);
    let origins = lemma_ring_origins(layer, style, label, sort, rings, rings.len());
    assert(feature_models(features).len() == features.len());
    assert forall|k: int| 0 <= k < features.len() implies {
        let f = #[trigger] features[k];
        &&& has_its_style(f, layer, style)
        &&& f.points@.len() == 1
        &&& f.points@[0]@ == rings[origins[k]]
        &&& text_model(f.label) == label
        &&& sort matches Some(n) ==> f.sort matches Some(m) && m == n
        &&& sort is None ==> f.sort is None
    } by {
        assert(feature_models(features)[k] == features[k]@);
        lemma_has_its_style(features[k], layer, style, label, sort, seq![rings[origins[k]]]);
        assert(features[k].points@[0]@ == seq![rings[origins[k]]][0]);
    }
    origins
}

proof fn lemma_ring_origins(
    layer: Seq<char>,
    style: LayerModel,
    label: Option<Seq<char>>,
    sort: Option<int>,
    rings: Seq<Seq<TilePoint>>,
    n: nat,
) -> (origins: Seq<int>)
    requires
        n <= rings.len(),
    ensures
        crate::styler::picks(origins, n, |k: int| rings[k].len() > 0),
        origins.len() == single_features(layer, style, label, sort, rings, n).len(),
        forall|k: int|
            0 <= k < origins.len() ==> #[trigger] single_features(
                layer,
                style,
                label,
                sort,
                rings,
                n,
            )[k] == styled_feature(layer, style, label, sort, seq![rings[origins[k]]]),
    decreases n,
{
    if n == 0 {
        Seq::empty()
    } else {
        let before = lemma_ring_origins(layer, style, label, sort, rings, (n - 1) as nat);
        crate::styler::lemma_picks_push(
            before,
            (n - 1) as nat,
            |k: int| rings[k].len() > 0,
        );
        if rings[n - 1].len() > 0 {
            before.push(n - 1)
        } else {
            before
        }
    }
}

/// Whether a layer of a style sheet is for a source layer and lets a feature
/// pass.
pub open spec fn is_meant_for(
    layer: LayerModel,
    source: Seq<char>,
    props: Seq<(Seq<char>, Json)>,
    ftype: Seq<char>,
) -> bool {
    layer.source_layer == Some(source) && layer.filter.accepts(props, ftype)
}

/// The name of the geometry type of a feature.
pub open spec fn kind_of(feature: MvtFeature) -> Seq<char> {
    match feature.geom_type {
        Some(t) => if t == 1 {
            "Point"@
        } else if t == 2 {
            "LineString"@
        } else if t == 3 {
            "Polygon"@
        } else {
            "Unknown"@
        },
        None => "Unknown"@,
    }
}

/// What styles a feature is the first layer of the style sheet for its source
/// layer that lets it pass; what none styles is left out.
pub proof fn law_features_are_styled_by_the_first_layer_that_fits(
    layer: MvtLayer,
    feature: MvtFeature,
    style: StyleModel,
    language: Seq<char>,
    i: int,
)
    ensures
        ({
            let props = properties_of(
                feature.tags@,
                texts(layer.keys@),
                value_models(layer.values@),
                feature.tags@.len() / 2,
            );
            let kind = kind_of(feature);
            &&& 0 <= i < style.layers.len() && is_meant_for(
                style.layers[i],
                layer.name@,
                props,
                kind,
            ) && (forall|k: int|
                0 <= k < i ==> !is_meant_for(#[trigger] style.layers[k], layer.name@, props, kind))
                ==> features_of(layer, feature, Some(style), language) == features_of_style(
                layer.name@,
                style.layers[i],
                props,
                rings_of(feature.geometry@),
                language,
            )
            &&& (forall|k: int|
                0 <= k < style.layers.len() ==> !is_meant_for(
                    #[trigger] style.layers[k],
                    layer.name@,
                    props,
                    kind,
                )) ==> features_of(layer, feature, Some(style), language).len() == 0
        }),
{
    let props = properties_of(
        feature.tags@,
        texts(layer.keys@),
        value_models(layer.values@),
        feature.tags@.len() / 2,
    );
    let kind = kind_of(feature);
    crate::styler::law_features_are_styled_by_all_that_fit(
        style.layers,
        layer.name@,
        props,
        kind,
        i,
    );
    if let Some(k) = style_index(style.layers, layer.name@, props, kind) {
        crate::styler::law_features_are_styled_by_all_that_fit(
            style.layers,
            layer.name@,
            props,
            kind,
            k,
        );
        assert(is_meant_for(style.layers[k], layer.name@, props, kind));
    }
}

/// Without a style sheet polygons are filled, points are symbols, and all else
/// are lines, without a color, at every zoom level.
pub proof fn law_unstyled_features_are_drawn_by_their_kind(
    layer: MvtLayer,
    feature: MvtFeature,
    language: Seq<char>,
    k: int,
)
    requires
        0 <= k < features_of(layer, feature, None, language).len(),
    ensures
        ({
            let f = features_of(layer, feature, None, language)[k];
            &&& feature.geom_type == Some(1i32) ==> f.style_type == "symbol"@
            &&& feature.geom_type == Some(3i32) ==> f.style_type == "fill"@
            &&& feature.geom_type != Some(1i32) && feature.geom_type != Some(3i32) ==> f.style_type
                == "line"@
            &&& f.layer == layer.name@
            &&& f.color == 0
            &&& f.minzoom is None
            &&& f.maxzoom is None
        }),
{
    let props = properties_of(
        feature.tags@,
        texts(layer.keys@),
        value_models(layer.values@),
        feature.tags@.len() / 2,
    );
    let rings = rings_of(feature.geometry@);
    lemma_geometry_names_differ();
    lemma_style_types_differ();
    law_line_colors_come_first(Seq::empty(), 0);
    let plain = default_style(kind_of(feature));
    assert(plain.paint == Seq::<(Seq<char>, Json)>::empty());
    let label = if plain.layer_type == "symbol"@ {
        label_of(props, language)
    } else {
        None
    };
    if plain.layer_type != "fill"@ {
        let origins = lemma_ring_origins(
            layer.name@,
            plain,
            label,
            rank_of(props),
            rings,
            rings.len(),
        );
        assert(single_features(layer.name@, plain, label, rank_of(props), rings, rings.len())[k]
            == styled_feature(layer.name@, plain, label, rank_of(props), seq![rings[origins[k]]]));
    }
}

proof fn lemma_geometry_names_differ()
    ensures
        "Point"@ != "Polygon"@,
        "LineString"@ != "Polygon"@,
        "LineString"@ != "Point"@,
        "Unknown"@ != "Polygon"@,
        "Unknown"@ != "Point"@,
{
    reveal_strlit("Point");
    reveal_strlit("LineString");
    reveal_strlit("Polygon");
    reveal_strlit("Unknown");
    assert("Point"@.len() == 5 && "LineString"@.len() == 10 && "Polygon"@.len() == 7
        && "Unknown"@.len() == 7);
    assert("Unknown"@[0] == 'U' && "Polygon"@[0] == 'P');
}

/// A name stands for the last layer of a tile that has it, and for none where
/// none has.
pub proof fn law_names_stand_for_the_last_layer(
    layers: Seq<(String, TileLayer)>,
    i: int,
    name: Seq<char>,
)
    ensures
        0 <= i < layers.len() && layers[i].0@ == name && (forall|k: int|
            i < k < layers.len() ==> (#[trigger] layers[k]).0@ != name) ==> layer_named(
            layers,
            name,
        ) == Some(i),
        (forall|k: int| 0 <= k < layers.len() ==> (#[trigger] layers[k]).0@ != name)
            ==> layer_named(layers, name) is None,
    decreases layers.len(),
{
    if layers.len() > 0 {
        let rest = layers.drop_last();
        assert(layers.last() == layers[layers.len() - 1]);
        assert forall|k: int| 0 <= k < rest.len() implies #[trigger] rest[k] == layers[k] by {}
        law_names_stand_for_the_last_layer(rest, i, name);
    }
}

/// The box of a feature in the index reaches from its least to its greatest
/// coordinates.
pub proof fn law_indexed_boxes_are_those_of_the_features(f: TileFeature)
    ensures
        feature_box(f).x0 == f.min_x,
        feature_box(f).x1 == f.max_x,
        feature_box(f).y0 == f.min_y,
        feature_box(f).y1 == f.max_y,
{
}

/// A loaded tile has the layers of the decoded one in their order, each with its
/// name and its extent, which is 4096 where the tile says none.
pub proof fn law_loaded_tiles_keep_their_layers(
    mvt: MvtTile,
    style: Option<StyleModel>,
    language: Seq<char>,
    tile: Tile,
    k: int,
)
    requires
        is_styled_tile(mvt, style, language, tile),
        0 <= k < tile.layers@.len(),
    ensures
        tile.layers@.len() == mvt.layers@.len(),
        tile.layers@[k].0@ == mvt.layers@[k].name@,
        mvt.layers@[k].extent matches Some(e) ==> tile.layers@[k].1.extent == e,
        mvt.layers@[k].extent is None ==> tile.layers@[k].1.extent == 4096,
        feature_models(tile.layers@[k].1.features@) == layer_features(
            mvt.layers@[k],
            style,
            language,
            mvt.layers@[k].features@.len(),
        ),
{
}

/// The features of a layer are those of each of its features, one after the
/// other.
pub proof fn law_features_of_a_layer_come_in_order(
    layer: MvtLayer,
    style: Option<StyleModel>,
    language: Seq<char>,
    n: nat,
)
    requires
        0 < n <= layer.features@.len(),
    ensures
        layer_features(layer, style, language, 0).len() == 0,
        layer_features(layer, style, language, n) == layer_features(
            layer,
            style,
            language,
            (n - 1) as nat,
        ) + features_of(layer, layer.features@[n - 1], style, language),
{
}

/// Gzipped bytes are told by their first two.
pub proof fn law_gzip_starts_with_two_bytes(rest: Seq<u8>, a: u8, b: u8)
    ensures
        is_gzip(seq![a, b] + rest) == (a == 31 && b == 139),
        !is_gzip(Seq::empty()) && !is_gzip(seq![a]),
{
}

} // verus!
