# mapscii

A Braille and ASCII world map renderer for the terminal, written in Rust and
verified with Verus.

`src/` is the library. It turns vector tiles into Unicode Braille characters
with xterm-256 colors: it compiles styles, decodes and indexes tiles, decides
what is drawn in which order, draws it, and places labels. Its functions carry
contracts that Verus proves. Calls into other crates stand in small functions
marked `external_body`, whose contracts Verus takes on trust.

| Module | What it holds |
|---|---|
| `braille_buffer` | Pixel buffer, Braille and ASCII glyphs, the xterm-256 palette |
| `canvas`, `fill` | Lines, polygons, dithered triangles |
| `bridge` | Closes narrow gaps between bodies of water |
| `label_buffer`, `spatial` | Label collision over an R-tree |
| `json`, `styler`, `style_data` | JSON values, Mapbox GL styles and filters, the dark style |
| `tile`, `tile_source` | Vector tiles, their cache and where they come from |
| `drawing`, `renderer` | How features are drawn, frames |
| `geo`, `overlay` | GeoJSON, markers, lines and areas on top of the map |
| `widget`, `input` | Map state, the widget, keys and mouse |
| `config`, `utils`, `simplify`, `order`, `text`, `double`, `arithmetic` | Configuration and helpers |

Numbers with a fraction are `Double`: the bits of an IEEE 754 double, which the
library compares, clamps, adds, halves and rounds to integers. Products, quotients
and functions on them are left to the caller, and so are the sums that go with
them. So a method such as `zoom_by` takes the sum of the zoom level and the step,
and a polygon fill asks where edges cross rows.

`app/` is the terminal program around the library: arguments, the event loop,
downloads, files, MBTiles, protobuf decoding, the projection.

## Controls

| Key | Action |
|---|---|
| Arrow keys / `h` `j` `k` `l` | Pan the map |
| `a` | Zoom in |
| `z` / `y` | Zoom out |
| Scroll wheel | Zoom in/out |
| Mouse drag | Pan the map |
| `c` | Toggle Braille / ASCII mode |
| `q` / `Esc` | Quit |
