//! The bundled style.

use vstd::prelude::*;

verus! {

/// The dark style.
pub const DARK_STYLE: &'static str = r##"{
  "name": "dark",
  "constants": {
    "@background": "#000000",
    "@water": "#5f87ff",
    "@park": "#005f00",
    "@wood": "#00875f",
    "@industrial": "#303030",
    "@admin": "#875f5f",
    "@road": "#afafaf",
    "@road-minor": "#585858",
    "@path": "#444444",
    "@rail": "#767676",
    "@building": "#262626",
    "@label-country": "#ffffff",
    "@label-state": "#bcbcbc",
    "@label-place": "#ffffaf",
    "@label-water": "#afd7ff",
    "@label-poi": "#ffaf5f",
    "@label-road": "#d0d0d0",
    "@label-house": "#8a8a8a"
  },
  "layers": [
    {
      "id": "background",
      "type": "background",
      "paint": {"background-color": "@background"}
    },
    {
      "id": "landuse_park",
      "type": "fill",
      "source-layer": "landuse",
      "filter": ["==", "class", "park"],
      "paint": {"fill-color": "@park"}
    },
    {
      "id": "landuse_wood",
      "type": "fill",
      "source-layer": "landuse",
      "filter": ["==", "class", "wood"],
      "paint": {"fill-color": "@wood"}
    },
    {
      "id": "landuse_industrial",
      "type": "fill",
      "source-layer": "landuse",
      "minzoom": 9,
      "filter": ["in", "class", "industrial", "parking"],
      "paint": {"fill-color": "@industrial"}
    },
    {
      "id": "waterway_river",
      "type": "line",
      "source-layer": "waterway",
      "filter": ["==", "class", "river"],
      "paint": {"line-color": "@water", "line-width": {"stops": [[8, 1], [14, 2]]}}
    },
    {
      "id": "waterway_stream_canal",
      "type": "line",
      "source-layer": "waterway",
      "minzoom": 12,
      "filter": ["in", "class", "stream", "canal"],
      "paint": {"line-color": "@water"}
    },
    {
      "id": "water",
      "type": "fill",
      "source-layer": "water",
      "paint": {"fill-color": "@water"}
    },
    {
      "id": "building",
      "type": "line",
      "source-layer": "building",
      "minzoom": 15,
      "paint": {"line-color": "@building"}
    },
    {
      "id": "road_main",
      "type": "line",
      "source-layer": "road",
      "filter": ["in", "class", "motorway", "trunk", "main"],
      "paint": {"line-color": "@road", "line-width": 1}
    },
    {
      "id": "road_street",
      "type": "line",
      "source-layer": "road",
      "minzoom": 11,
      "filter": ["in", "class", "street", "street_limited", "motorway_link"],
      "paint": {"line-color": "@road-minor"}
    },
    {
      "id": "road_path",
      "type": "line",
      "source-layer": "road",
      "minzoom": 14,
      "filter": ["in", "class", "path", "service", "driveway"],
      "paint": {"line-color": "@path"}
    },
    {
      "id": "road_rail",
      "type": "line",
      "source-layer": "road",
      "minzoom": 12,
      "filter": ["==", "class", "major_rail"],
      "paint": {"line-color": "@rail"}
    },
    {
      "id": "admin_level_2",
      "type": "line",
      "source-layer": "admin",
      "filter": ["all", ["==", "admin_level", 2], ["==", "disputed", 0], ["==", "maritime", 0]],
      "paint": {"line-color": "@admin"}
    },
    {
      "id": "admin_level_3_4",
      "type": "line",
      "source-layer": "admin",
      "minzoom": 5,
      "filter": ["all", [">=", "admin_level", 3], ["<=", "admin_level", 4], ["==", "maritime", 0]],
      "paint": {"line-color": "@admin"}
    },
    {
      "id": "country_label",
      "type": "symbol",
      "source-layer": "country_label",
      "maxzoom": 12,
      "filter": ["==", "$type", "Point"],
      "paint": {"text-color": "@label-country"}
    },
    {
      "id": "state_label",
      "type": "symbol",
      "source-layer": "state_label",
      "minzoom": 4,
      "maxzoom": 9,
      "paint": {"text-color": "@label-state"}
    },
    {
      "id": "marine_label",
      "type": "symbol",
      "source-layer": "marine_label",
      "paint": {"text-color": "@label-water"}
    },
    {
      "id": "water_label",
      "type": "symbol",
      "source-layer": "water_label",
      "minzoom": 10,
      "paint": {"text-color": "@label-water"}
    },
    {
      "id": "place_label_city",
      "type": "symbol",
      "source-layer": "place_label",
      "maxzoom": 16,
      "filter": ["==", "type", "city"],
      "paint": {"text-color": "@label-place"}
    },
    {
      "id": "place_label_town",
      "type": "symbol",
      "ref": "place_label_city",
      "source-layer": "place_label",
      "minzoom": 8,
      "filter": ["in", "type", "town", "village", "suburb"],
      "paint": {"text-color": "@label-place"}
    },
    {
      "id": "rail_station_label",
      "type": "symbol",
      "source-layer": "rail_station_label",
      "minzoom": 14,
      "paint": {"text-color": "@label-poi"}
    },
    {
      "id": "poi_label",
      "type": "symbol",
      "source-layer": "poi_label",
      "minzoom": 14,
      "paint": {"text-color": "@label-poi"}
    },
    {
      "id": "road_label",
      "type": "symbol",
      "source-layer": "road_label",
      "minzoom": 14,
      "filter": ["has", "name"],
      "paint": {"text-color": "@label-road"}
    },
    {
      "id": "housenum_label",
      "type": "symbol",
      "source-layer": "housenum_label",
      "minzoom": 17,
      "paint": {"text-color": "@label-house"}
    }
  ]
}
"##;

/// The dark style as a text of its own.
pub fn dark_style() -> (r: String)
    ensures
        r@ == DARK_STYLE@,
{
    DARK_STYLE.to_string()
}

} // verus!
