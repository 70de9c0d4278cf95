//! Tile source: where tiles come from, and the in-memory LRU cache.
//!
//! Supports:
//! - Remote tile servers (HTTP/HTTPS)
//! - Local MBTiles files
//! - In-memory LRU cache
//! - Disk cache for downloaded tiles

use crate::config::MapConfig;
use crate::styler::{text_model, Styler};
use crate::text::{char_text, chars_of};
use crate::tile::{Tile, TileError};
use lru::LruCache;
use std::num::NonZeroUsize;
use std::sync::Arc;
use vstd::arithmetic::power2::pow2;
use vstd::prelude::*;

verus! {

// -- Decimal numbers -------------------------------------------------------

/// The character of a decimal digit.
pub open spec fn digit_char(d: nat) -> char {
    (48 + d) as char
}

/// A number in decimal digits.
pub open spec fn decimal(n: nat) -> Seq<char>
    decreases n,
{
    if n < 10 {
        seq![digit_char(n)]
    } else {
        decimal(n / 10).push(digit_char(n % 10))
    }
}

fn digit_of(d: u32) -> (r: char)
    requires
        d < 10,
    ensures
        r == digit_char(d as nat),
{
    if d == 0 {
        '0'
    } else if d == 1 {
        '1'
    } else if d == 2 {
        '2'
    } else if d == 3 {
        '3'
    } else if d == 4 {
        '4'
    } else if d == 5 {
        '5'
    } else if d == 6 {
        '6'
    } else if d == 7 {
        '7'
    } else if d == 8 {
        '8'
    } else {
        '9'
    }
}

fn decimal_text(n: u32) -> (r: String)
    ensures
        r@ == decimal(n as nat),
    decreases n,
{
    if n < 10 {
        char_text(digit_of(n))
    } else {
        let mut s: String = decimal_text(n / 10);
        let last: String = char_text(digit_of(n % 10));
        s.append(last.as_str());
        assert(s@ =~= decimal(n as nat));
        s
    }
}

proof fn lemma_decimal_is_digits(n: nat)
    ensures
        decimal(n).len() > 0,
        forall|i: int| 0 <= i < decimal(n).len() ==> '0' <= #[trigger] decimal(n)[i] <= '9',
    decreases n,
{
    if n >= 10 {
        lemma_decimal_is_digits(n / 10);
    }
}

proof fn lemma_decimal_injective(m: nat, n: nat)
    requires
        decimal(m) == decimal(n),
    ensures
        m == n,
    decreases m,
{
    lemma_decimal_is_digits(m / 10);
    lemma_decimal_is_digits(n / 10);
    if m < 10 {
        if n < 10 {
            assert(decimal(m)[0] == digit_char(m) && decimal(n)[0] == digit_char(n));
        } else {
            assert(decimal(n).len() == decimal(n / 10).len() + 1);
            assert(decimal(m).len() == 1);
        }
    } else if n < 10 {
        assert(decimal(m).len() == decimal(m / 10).len() + 1);
        assert(decimal(n).len() == 1);
    } else {
        assert(decimal(m).last() == digit_char(m % 10));
        assert(decimal(n).last() == digit_char(n % 10));
        assert(decimal(m).drop_last() =~= decimal(m / 10));
        assert(decimal(n).drop_last() =~= decimal(n / 10));
        lemma_decimal_injective(m / 10, n / 10);
    }
}

// -- Keys ------------------------------------------------------------------

/// A tile key: (z, x, y).
#[derive(Debug, Clone, Copy, PartialEq, Eq, Hash, Structural)]
pub struct TileKey {
    pub z: u8,
    pub x: u32,
    pub y: u32,
}

/// A path with one more component.
pub open spec fn joined(base: Seq<char>, part: Seq<char>) -> Seq<char> {
    if base.len() == 0 || base.last() == '/' {
        base + part
    } else {
        base + "/"@ + part
    }
}

fn join(base: &str, part: &str) -> (r: String)
    ensures
        r@ == joined(base@, part@),
{
    let chars: Vec<char> = chars_of(base);
    let mut path: String = base.to_string();
    if chars.len() > 0 && chars[chars.len() - 1] != '/' {
        path.append("/");
    }
    path.append(part);
    path
}

impl TileKey {
    pub fn new(z: u8, x: u32, y: u32) -> (r: Self)
        ensures
            r == (TileKey { z, x, y }),
    {
        TileKey { z, x, y }
    }

    /// Whether the row of the key is one of its zoom level.
    pub open spec fn row_exists(self) -> bool {
        self.z < 32 && self.y < pow2(self.z as nat)
    }

    /// The name of the tile in the cache.
    pub open spec fn name(self) -> Seq<char> {
        decimal(self.z as nat) + "-"@ + decimal(self.x as nat) + "-"@ + decimal(self.y as nat)
    }

    pub fn cache_name(&self) -> (r: String)
        ensures
            r@ == self.name(),
    {
        let mut s: String = decimal_text(self.z as u32);
        s.append("-");
        s.append(decimal_text(self.x).as_str());
        s.append("-");
        s.append(decimal_text(self.y).as_str());
        s
    }

    /// The file of the tile below a cache directory.
    pub open spec fn path_below(self, base: Seq<char>) -> Seq<char> {
        joined(
            joined(base, decimal(self.z as nat)),
            decimal(self.x as nat) + "-"@ + decimal(self.y as nat) + ".pbf"@,
        )
    }

    pub fn disk_path(&self, base: &str) -> (r: String)
        ensures
            r@ == self.path_below(base@),
    {
        let dir: String = join(base, decimal_text(self.z as u32).as_str());
        let mut file: String = decimal_text(self.x);
        file.append("-");
        file.append(decimal_text(self.y).as_str());
        file.append(".pbf");
        join(dir.as_str(), file.as_str())
    }

    /// The address of the tile on a server.
    pub open spec fn address(self, source: Seq<char>) -> Seq<char> {
        source + decimal(self.z as nat) + "/"@ + decimal(self.x as nat) + "/"@ + decimal(
            self.y as nat,
        ) + ".pbf"@
    }

    pub fn url(&self, source: &str) -> (r: String)
        ensures
            r@ == self.address(source@),
    {
        let mut s: String = source.to_string();
        s.append(decimal_text(self.z as u32).as_str());
        s.append("/");
        s.append(decimal_text(self.x).as_str());
        s.append("/");
        s.append(decimal_text(self.y).as_str());
        s.append(".pbf");
        s
    }

    /// The row of the tile in a file that counts rows from the bottom.
    pub open spec fn flipped_row(self) -> int {
        pow2(self.z as nat) - 1 - self.y
    }

    pub fn tms_row(&self) -> (r: u32)
        requires
            self.row_exists(),
        ensures
            r == self.flipped_row(),
    {
        proof {
            vstd::arithmetic::power2::lemma2_to64();
            vstd::arithmetic::power2::lemma_pow2_strictly_increases(self.z as nat, 32);
            vstd::bits::lemma_u64_shl_is_mul(1, self.z as u64);
        }
        let rows: u64 = 1u64 << (self.z as u64);
        (rows - 1 - self.y as u64) as u32
    }
}

/// Flipping the rows twice gives back the row.
pub proof fn law_row_flip_is_an_involution(key: TileKey)
    requires
        key.row_exists(),
    ensures
        0 <= key.flipped_row() < pow2(key.z as nat),
        (TileKey { y: key.flipped_row() as u32, ..key }).flipped_row() == key.y,
{
    vstd::arithmetic::power2::lemma2_to64();
    vstd::arithmetic::power2::lemma_pow2_strictly_increases(key.z as nat, 32);
}

/// A text splits at the first place of a mark in one way only.
proof fn lemma_split_at(mark: char, a: Seq<char>, b: Seq<char>, c: Seq<char>, d: Seq<char>)
    requires
        a + seq![mark] + b == c + seq![mark] + d,
        forall|i: int| 0 <= i < a.len() ==> #[trigger] a[i] != mark,
        forall|i: int| 0 <= i < c.len() ==> #[trigger] c[i] != mark,
    ensures
        a == c,
        b == d,
{
    let s = a + seq![mark] + b;
    let t = c + seq![mark] + d;
    assert(s[a.len() as int] == mark);
    assert(t[c.len() as int] == mark);
    if a.len() < c.len() {
        assert(t[a.len() as int] == c[a.len() as int]);
    } else if c.len() < a.len() {
        assert(s[c.len() as int] == a[c.len() as int]);
    }
    assert(a =~= s.take(a.len() as int));
    assert(c =~= t.take(c.len() as int));
    assert(b =~= s.skip(a.len() as int + 1));
    assert(d =~= t.skip(c.len() as int + 1));
}

/// Different tiles have different names, so that no tile is taken for another
/// in the cache.
pub proof fn law_cache_names_are_unique(a: TileKey, b: TileKey)
    requires
        a.name() == b.name(),
    ensures
        a == b,
{
    reveal_strlit("-");
    assert("-"@ =~= seq!['-']);
    let (az, ax, ay) = (decimal(a.z as nat), decimal(a.x as nat), decimal(a.y as nat));
    let (bz, bx, by) = (decimal(b.z as nat), decimal(b.x as nat), decimal(b.y as nat));
    lemma_decimal_is_digits(a.z as nat);
    lemma_decimal_is_digits(a.x as nat);
    lemma_decimal_is_digits(b.z as nat);
    lemma_decimal_is_digits(b.x as nat);
    assert(a.name() =~= az + seq!['-'] + (ax + seq!['-'] + ay));
    assert(b.name() =~= bz + seq!['-'] + (bx + seq!['-'] + by));
    lemma_split_at('-', az, ax + seq!['-'] + ay, bz, bx + seq!['-'] + by);
    lemma_split_at('-', ax, ay, bx, by);
    lemma_decimal_injective(a.z as nat, b.z as nat);
    lemma_decimal_injective(a.x as nat, b.x as nat);
    lemma_decimal_injective(a.y as nat, b.y as nat);
}

/// The text of a key, with a mark between column and row.
spec fn key_text(key: TileKey, mark: char) -> Seq<char> {
    decimal(key.z as nat) + seq!['/'] + (decimal(key.x as nat) + seq![mark] + (decimal(
        key.y as nat,
    ) + ".pbf"@))
}

proof fn lemma_key_text_is_unique(start: Seq<char>, mark: char, a: TileKey, b: TileKey)
    requires
        start + key_text(a, mark) == start + key_text(b, mark),
        mark == '-' || mark == '/',
    ensures
        a == b,
{
    let (az, ax, ay) = (decimal(a.z as nat), decimal(a.x as nat), decimal(a.y as nat));
    let (bz, bx, by) = (decimal(b.z as nat), decimal(b.x as nat), decimal(b.y as nat));
    lemma_decimal_is_digits(a.z as nat);
    lemma_decimal_is_digits(a.x as nat);
    lemma_decimal_is_digits(b.z as nat);
    lemma_decimal_is_digits(b.x as nat);
    let n = start.len() as int;
    assert((start + key_text(a, mark)).skip(n) =~= key_text(a, mark));
    assert((start + key_text(b, mark)).skip(n) =~= key_text(b, mark));
    lemma_split_at(
        '/',
        az,
        ax + seq![mark] + (ay + ".pbf"@),
        bz,
        bx + seq![mark] + (by + ".pbf"@),
    );
    lemma_split_at(mark, ax, ay + ".pbf"@, bx, by + ".pbf"@);
    lemma_same_start(ay, by, ".pbf"@);
    lemma_decimal_injective(a.z as nat, b.z as nat);
    lemma_decimal_injective(a.x as nat, b.x as nat);
    lemma_decimal_injective(a.y as nat, b.y as nat);
}

proof fn lemma_path_text(base: Seq<char>, key: TileKey)
    ensures
        key.path_below(base) == (if base.len() == 0 || base.last() == '/' {
            base
        } else {
            base + "/"@
        }) + key_text(key, '-'),
{
    reveal_strlit("/");
    reveal_strlit("-");
    assert("/"@ =~= seq!['/']);
    assert("-"@ =~= seq!['-']);
    let z = decimal(key.z as nat);
    lemma_decimal_is_digits(key.z as nat);
    assert('0' <= z[z.len() - 1] <= '9');
    let dir = joined(base, z);
    assert(dir.last() == z.last());
    assert(key.path_below(base) =~= (if base.len() == 0 || base.last() == '/' {
        base
    } else {
        base + "/"@
    }) + key_text(key, '-'));
}

/// Different tiles are kept in different files.
pub proof fn law_disk_paths_are_unique(base: Seq<char>, a: TileKey, b: TileKey)
    requires
        a.path_below(base) == b.path_below(base),
    ensures
        a == b,
{
    lemma_path_text(base, a);
    lemma_path_text(base, b);
    let start = if base.len() == 0 || base.last() == '/' {
        base
    } else {
        base + "/"@
    };
    lemma_key_text_is_unique(start, '-', a, b);
}

/// Different tiles have different addresses on a server.
pub proof fn law_addresses_are_unique(source: Seq<char>, a: TileKey, b: TileKey)
    requires
        a.address(source) == b.address(source),
    ensures
        a == b,
{
    lemma_address_text(source, a);
    lemma_address_text(source, b);
    lemma_key_text_is_unique(source, '/', a, b);
}

proof fn lemma_address_text(source: Seq<char>, key: TileKey)
    ensures
        key.address(source) == source + key_text(key, '/'),
{
    reveal_strlit("/");
    assert("/"@ =~= seq!['/']);
    assert(key.address(source) =~= source + key_text(key, '/'));
}

proof fn lemma_same_start(a: Seq<char>, b: Seq<char>, end: Seq<char>)
    requires
        a + end == b + end,
    ensures
        a == b,
{
    assert((a + end).len() == (b + end).len());
    assert(a =~= (a + end).take(a.len() as int));
    assert(b =~= (b + end).take(b.len() as int));
}

// -- LRU cache -------------------------------------------------------------

/// The hasher that the cache uses.
#[verifier::external_type_specification]
#[verifier::external_body]
pub struct ExDefaultHasher(lru::DefaultHasher);

/// The cache type of the `lru` crate.
#[verifier::external_type_specification]
#[verifier::external_body]
#[verifier::reject_recursive_types(K)]
#[verifier::reject_recursive_types(V)]
#[verifier::reject_recursive_types(S)]
pub struct ExLruCache<K, V, S>(LruCache<K, V, S>);

/// What a cache holds, the entry that was used last in front.
pub uninterp spec fn cached(cache: LruCache<String, Arc<Tile>>) -> Seq<(Seq<char>, Arc<Tile>)>;

/// How many entries a cache may hold.
pub uninterp spec fn cache_limit(cache: LruCache<String, Arc<Tile>>) -> nat;

/// The place of a key in a list of entries.
pub open spec fn entry_at(entries: Seq<(Seq<char>, Arc<Tile>)>, key: Seq<char>) -> Option<int>
    decreases entries.len(),
{
    if entries.len() == 0 {
        None
    } else if entries.last().0 == key {
        Some(entries.len() - 1)
    } else {
        entry_at(entries.drop_last(), key)
    }
}

/// The entries after the one at `i` was used.
pub open spec fn used(entries: Seq<(Seq<char>, Arc<Tile>)>, i: int) -> Seq<
    (Seq<char>, Arc<Tile>),
> {
    seq![entries[i]] + entries.remove(i)
}

/// The entries after one was stored: it stands in front, in place of an older
/// one with its key, else, where there is no room, in place of the last.
pub open spec fn stored(
    entries: Seq<(Seq<char>, Arc<Tile>)>,
    limit: nat,
    key: Seq<char>,
    tile: Arc<Tile>,
) -> Seq<(Seq<char>, Arc<Tile>)> {
    seq![(key, tile)] + match entry_at(entries, key) {
        Some(i) => entries.remove(i),
        None => if entries.len() == limit {
            entries.drop_last()
        } else {
            entries
        },
    }
}

/// `LruCache::new` of the `lru` crate: an empty cache for this many entries. It
/// allocates its table at once, hence the bound.
#[verifier::external_body]
fn new_cache(limit: usize) -> (r: LruCache<String, Arc<Tile>>)
    requires
        0 < limit <= CACHE_LIMIT,
    ensures
        cached(r) == Seq::<(Seq<char>, Arc<Tile>)>::empty(),
        cache_limit(r) == limit,
{
    LruCache::new(NonZeroUsize::new(limit).unwrap())
}

/// `LruCache::get` of the `lru` crate: the value of a key, which thereby is the
/// one that was used last.
#[verifier::external_body]
fn cache_get(cache: &mut LruCache<String, Arc<Tile>>, key: &str) -> (r: Option<Arc<Tile>>)
    ensures
        cache_limit(*final(cache)) == cache_limit(*old(cache)),
        match entry_at(cached(*old(cache)), key@) {
            Some(i) => r == Some(cached(*old(cache))[i].1) && cached(*final(cache)) == used(
                cached(*old(cache)),
                i,
            ),
            None => r is None && cached(*final(cache)) == cached(*old(cache)),
        },
{
    cache.get(key).cloned()
}

/// `LruCache::put` of the `lru` crate: stores a value under a key.
#[verifier::external_body]
fn cache_put(cache: &mut LruCache<String, Arc<Tile>>, key: String, tile: Arc<Tile>)
    ensures
        cache_limit(*final(cache)) == cache_limit(*old(cache)),
        cached(*final(cache)) == stored(
            cached(*old(cache)),
            cache_limit(*old(cache)),
            key@,
            tile,
        ),
{
    cache.put(key, tile);
}

/// The largest number of parsed tiles that can be kept in memory: 7/8 of 2^27, the
/// most that a table of the cache has room for where addresses have 32 bits.
pub const CACHE_LIMIT: usize = 0x700_0000;

/// What was stored last is found, and there is always room for it.
pub proof fn law_stored_tile_is_found(
    entries: Seq<(Seq<char>, Arc<Tile>)>,
    limit: nat,
    key: Seq<char>,
    tile: Arc<Tile>,
)
    requires
        distinct_keys(entries),
        entries.len() <= limit,
        limit > 0,
    ensures
        entry_at(stored(entries, limit, key, tile), key) == Some(0int),
        stored(entries, limit, key, tile)[0].1 == tile,
        distinct_keys(stored(entries, limit, key, tile)),
        stored(entries, limit, key, tile).len() <= limit,
{
    let after = stored(entries, limit, key, tile);
    lemma_entry_at(entries, key);
    assert forall|i: int, j: int| 0 <= i < j < after.len() implies (#[trigger] after[i]).0 != (
    #[trigger] after[j]).0 by {
        match entry_at(entries, key) {
            Some(k) => {
                let rest = entries.remove(k);
                assert(after[j] == rest[j - 1]);
                let j0 = if j - 1 < k {
                    j - 1
                } else {
                    j
                };
                assert(rest[j - 1] == entries[j0]);
                if i > 0 {
                    let i0 = if i - 1 < k {
                        i - 1
                    } else {
                        i
                    };
                    assert(after[i] == rest[i - 1]);
                    assert(rest[i - 1] == entries[i0]);
                }
            },
            None => {
                assert(after[j] == entries[j - 1]);
                if i > 0 {
                    assert(after[i] == entries[i - 1]);
                }
            },
        }
    }
    lemma_entry_at(after, key);
    assert(after[0].0 == key);
    if let Some(i) = entry_at(after, key) {
        assert(after[i].0 == after[0].0);
    }
}

/// No two entries have the same key.
pub open spec fn distinct_keys(entries: Seq<(Seq<char>, Arc<Tile>)>) -> bool {
    forall|i: int, j: int|
        0 <= i < j < entries.len() ==> (#[trigger] entries[i]).0 != (#[trigger] entries[j]).0
}

proof fn lemma_entry_at(entries: Seq<(Seq<char>, Arc<Tile>)>, key: Seq<char>)
    ensures
        match entry_at(entries, key) {
            Some(i) => 0 <= i < entries.len() && entries[i].0 == key,
            None => forall|i: int| 0 <= i < entries.len() ==> (#[trigger] entries[i]).0 != key,
        },
    decreases entries.len(),
{
    if entries.len() > 0 && entries.last().0 != key {
        lemma_entry_at(entries.drop_last(), key);
        assert forall|i: int|
            entry_at(entries, key) is None && 0 <= i < entries.len() implies (
        #[trigger] entries[i]).0 != key by {
            if i < entries.len() - 1 {
                assert(entries.drop_last()[i] == entries[i]);
            }
        }
    }
}

/// Looking a tile up loses none and changes none.
pub proof fn law_lookup_keeps_all_tiles(
    entries: Seq<(Seq<char>, Arc<Tile>)>,
    i: int,
    k: int,
)
    requires
        0 <= i < entries.len(),
        0 <= k < entries.len(),
    ensures
        used(entries, i).len() == entries.len(),
        used(entries, i).contains(entries[k]),
{
    let after = used(entries, i);
    if k == i {
        assert(after[0] == entries[k]);
    } else if k < i {
        assert(after[k + 1] == entries[k]);
    } else {
        assert(after[k] == entries[k]);
    }
}

// -- Tile source -----------------------------------------------------------

/// The tile source mode.
#[derive(Debug, Clone, Copy, PartialEq, Eq, Structural)]
pub enum SourceMode {
    Http,
    MBTiles,
}

/// Errors from tile source operations.
#[derive(Debug)]
pub enum TileSourceError {
    Http(String),
    TileParse(String),
    MBTiles(String),
}

impl TileSourceError {
    /// What went wrong, in words.
    pub fn message(&self) -> (r: String)
        ensures
            r@ == match self {
                TileSourceError::Http(s) => "HTTP error: "@ + s@,
                TileSourceError::TileParse(s) => "tile parse error: "@ + s@,
                TileSourceError::MBTiles(s) => "MBTiles error: "@ + s@,
            },
    {
        match self {
            TileSourceError::Http(s) => "HTTP error: ".to_string().concat(s.as_str()),
            TileSourceError::TileParse(s) => "tile parse error: ".to_string().concat(s.as_str()),
            TileSourceError::MBTiles(s) => "MBTiles error: ".to_string().concat(s.as_str()),
        }
    }
}

/// The next thing to do to get the bytes of a tile.
#[derive(Debug)]
pub enum FetchStep {
    /// Read this file; where it cannot be read, ask the server.
    ReadFile(String),
    /// Request this address.
    Request(String),
    /// Look up a row of an MBTiles file by zoom level, column and row.
    Query(u32, u32, u32),
    /// Write the bytes to this file, whether or not that works, and be done.
    Store(String, Vec<u8>),
    /// Done.
    Done(Vec<u8>),
    /// The tile cannot be had.
    Fail(TileSourceError),
}

/// What came of a request.
#[derive(Debug)]
pub enum Reply {
    /// The request could not be sent, or its body not read.
    Broken(String),
    /// The server answered with a status that is no success.
    Refused(String),
    /// The body.
    Body(Vec<u8>),
}

/// Whether a text ends with another.
pub open spec fn ends_with(s: Seq<char>, end: Seq<char>) -> bool {
    s.len() >= end.len() && s.skip(s.len() - end.len()) == end
}

fn has_ending(text: &str, end: &str) -> (r: bool)
    ensures
        r == ends_with(text@, end@),
{
    let t: Vec<char> = chars_of(text);
    let e: Vec<char> = chars_of(end);
    if t.len() < e.len() {
        return false;
    }
    let n: usize = t.len();
    let start: usize = n - e.len();
    let ghost tail = t@.skip(start as int);
    let mut i: usize = 0;
    while i < e.len()
        invariant
            i <= e@.len(),
            start + e@.len() == n,
            n == t@.len(),
            t@ == text@,
            e@ == end@,
            tail == t@.skip(start as int),
            forall|k: int| 0 <= k < i ==> #[trigger] tail[k] == e@[k],
        decreases e@.len() - i,
    {
        assert(tail[i as int] == t@[start + i]);
        if t[start + i] != e[i] {
            assert(tail != end@);
            return false;
        }
        i = i + 1;
    }
    assert(tail =~= end@);
    true
}

/// Manages fetching, caching, and parsing of vector tiles.
pub struct TileSource {
    /// The source URL or file path.
    pub source: String,
    /// The operating mode (HTTP, MBTiles).
    pub mode: SourceMode,
    /// Parsed + styled tile cache.
    pub cache: LruCache<String, Arc<Tile>>,
    /// Disk cache directory (if persistence is enabled).
    pub cache_dir: Option<String>,
    /// Whether to persist tiles to disk.
    pub persist: bool,
    /// Reference to the styler.
    pub styler: Option<Arc<Styler>>,
}

/// The source of a configuration: an MBTiles file where one is given, else the
/// server.
pub open spec fn source_of(mbtiles_path: Option<Seq<char>>, source: Seq<char>) -> Seq<char> {
    match mbtiles_path {
        Some(path) => path,
        None => source,
    }
}

/// The mode of a source.
pub open spec fn mode_of(source: Seq<char>) -> SourceMode {
    if ends_with(source, ".mbtiles"@) {
        SourceMode::MBTiles
    } else {
        SourceMode::Http
    }
}

impl TileSource {
    /// The cache holds no key twice, and no more than it may.
    pub open spec fn wf(&self) -> bool {
        &&& distinct_keys(cached(self.cache))
        &&& cached(self.cache).len() <= cache_limit(self.cache)
        &&& cache_limit(self.cache) > 0
    }

    /// Create a new tile source. `cache_dir` is where tiles can be kept on
    /// disk.
    pub fn new(config: &MapConfig, cache_dir: Option<String>) -> (r: Self)
        requires
            0 < config@.tile_cache_size <= CACHE_LIMIT,
        ensures
            r.wf(),
            r.source@ == source_of(config@.mbtiles_path, config@.source),
            r.mode == mode_of(r.source@),
            cached(r.cache).len() == 0,
            cache_limit(r.cache) == config@.tile_cache_size,
            r.persist == config@.persist_downloaded_tiles,
            text_model(r.cache_dir) == if config@.persist_downloaded_tiles {
                text_model(cache_dir)
            } else {
                None
            },
            r.styler is None,
    {
        let source: String = match &config.mbtiles_path {
            Some(path) => path.clone(),
            None => config.source.clone(),
        };
        let mode: SourceMode = if has_ending(source.as_str(), ".mbtiles") {
            SourceMode::MBTiles
        } else {
            SourceMode::Http
        };
        TileSource {
            source,
            mode,
            cache: new_cache(config.tile_cache_size),
            cache_dir: if config.persist_downloaded_tiles {
                cache_dir
            } else {
                None
            },
            persist: config.persist_downloaded_tiles,
            styler: None,
        }
    }

    /// Set the styler for this tile source.
    pub fn set_styler(&mut self, styler: Arc<Styler>)
        requires
            old(self).wf(),
        ensures
            final(self).wf(),
            *final(self) == (TileSource { styler: Some(styler), ..*old(self) }),
    {
        self.styler = Some(styler);
    }

    /// A tile that is in the cache.
    pub fn cached_tile(&mut self, key: TileKey) -> (r: Option<Arc<Tile>>)
        requires
            old(self).wf(),
        ensures
            final(self).wf(),
            match entry_at(cached(old(self).cache), key.name()) {
                Some(i) => r == Some(cached(old(self).cache)[i].1) && cached(final(self).cache)
                    == used(cached(old(self).cache), i),
                None => r is None && cached(final(self).cache) == cached(old(self).cache),
            },
            final(self).source == old(self).source,
            final(self).mode == old(self).mode,
            final(self).cache_dir == old(self).cache_dir,
            final(self).persist == old(self).persist,
            final(self).styler == old(self).styler,
    {
        let name: String = key.cache_name();
        proof {
            lemma_entry_at(cached(self.cache), key.name());
            if let Some(i) = entry_at(cached(self.cache), key.name()) {
                lemma_used_keeps_keys_distinct(cached(self.cache), i);
            }
        }
        cache_get(&mut self.cache, name.as_str())
    }

    /// Take in a tile that was loaded from its bytes, or could not be.
    pub fn take_tile(&mut self, key: TileKey, loaded: Result<Tile, TileError>) -> (r: Result<
        Arc<Tile>,
        TileSourceError,
    >)
        requires
            old(self).wf(),
        ensures
            final(self).wf(),
            match (loaded, r) {
                (Ok(tile), Ok(shared)) => *shared == tile && cached(final(self).cache) == stored(
                    cached(old(self).cache),
                    cache_limit(old(self).cache),
                    key.name(),
                    shared,
                ),
                (Err(TileError::Decompress(e)), Err(TileSourceError::TileParse(s))) => s@
                    == "failed to decompress tile: "@ + e@ && cached(final(self).cache) == cached(
                    old(self).cache,
                ),
                (Err(TileError::ProtobufDecode(e)), Err(TileSourceError::TileParse(s))) => s@
                    == "failed to decode protobuf: "@ + e@ && cached(final(self).cache) == cached(
                    old(self).cache,
                ),
                _ => false,
            },
            final(self).source == old(self).source,
            final(self).mode == old(self).mode,
            final(self).cache_dir == old(self).cache_dir,
            final(self).persist == old(self).persist,
            final(self).styler == old(self).styler,
    {
        match loaded {
            Ok(tile) => {
                let shared: Arc<Tile> = Arc::new(tile);
                proof {
                    law_stored_tile_is_found(
                        cached(self.cache),
                        cache_limit(self.cache),
                        key.name(),
                        shared,
                    );
                }
                cache_put(&mut self.cache, key.cache_name(), shared.clone());
                Ok(shared)
            },
            Err(e) => Err(TileSourceError::TileParse(e.message())),
        }
    }

    /// The first step to the bytes of a tile. `opened` says whether the MBTiles
    /// file is open.
    pub fn first_step(&self, key: TileKey, opened: bool) -> (r: FetchStep)
        requires
            self.mode == SourceMode::MBTiles && opened ==> key.row_exists(),
        ensures
            match self.mode {
                SourceMode::Http => match (self.persist, self.cache_dir) {
                    (true, Some(dir)) => r matches FetchStep::ReadFile(path) && path@
                        == key.path_below(dir@),
                    _ => r matches FetchStep::Request(url) && url@ == key.address(self.source@),
                },
                SourceMode::MBTiles => if opened {
                    r matches FetchStep::Query(z, x, row) && z == key.z && x == key.x && row
                        == key.flipped_row()
                } else {
                    r matches FetchStep::Fail(TileSourceError::MBTiles(s)) && s@
                        == "MBTiles not initialized"@
                },
            },
    {
        match self.mode {
            SourceMode::Http => {
                if self.persist {
                    if let Some(dir) = &self.cache_dir {
                        return FetchStep::ReadFile(key.disk_path(dir.as_str()));
                    }
                }
                FetchStep::Request(key.url(self.source.as_str()))
            },
            SourceMode::MBTiles => {
                if opened {
                    FetchStep::Query(key.z as u32, key.x, key.tms_row())
                } else {
                    FetchStep::Fail(
                        TileSourceError::MBTiles("MBTiles not initialized".to_string()),
                    )
                }
            },
        }
    }

    /// The step after a file was read, or could not be.
    pub fn after_file(&self, key: TileKey, data: Option<Vec<u8>>) -> (r: FetchStep)
        ensures
            match data {
                Some(bytes) => r == FetchStep::Done(bytes),
                None => r matches FetchStep::Request(url) && url@ == key.address(self.source@),
            },
    {
        match data {
            Some(bytes) => FetchStep::Done(bytes),
            None => FetchStep::Request(key.url(self.source.as_str())),
        }
    }

    /// The step after a request.
    pub fn after_reply(&self, key: TileKey, reply: Reply) -> (r: FetchStep)
        ensures
            match reply {
                Reply::Broken(e) => r matches FetchStep::Fail(TileSourceError::Http(s)) && s == e,
                Reply::Refused(status) => r matches FetchStep::Fail(TileSourceError::Http(s)) && s@
                    == "HTTP "@ + status@ + " for "@ + key.address(self.source@),
                Reply::Body(bytes) => match (self.persist, self.cache_dir) {
                    (true, Some(dir)) => r matches FetchStep::Store(path, b) && path@
                        == key.path_below(dir@) && b == bytes,
                    _ => r == FetchStep::Done(bytes),
                },
            },
    {
        match reply {
            Reply::Broken(e) => FetchStep::Fail(TileSourceError::Http(e)),
            Reply::Refused(status) => {
                let mut s: String = "HTTP ".to_string();
                s.append(status.as_str());
                s.append(" for ");
                s.append(key.url(self.source.as_str()).as_str());
                FetchStep::Fail(TileSourceError::Http(s))
            },
            Reply::Body(bytes) => {
                if self.persist {
                    if let Some(dir) = &self.cache_dir {
                        return FetchStep::Store(key.disk_path(dir.as_str()), bytes);
                    }
                }
                FetchStep::Done(bytes)
            },
        }
    }

    /// The step after an MBTiles file was asked.
    pub fn after_query(&self, found: Result<Vec<u8>, String>) -> (r: FetchStep)
        ensures
            match found {
                Ok(bytes) => r == FetchStep::Done(bytes),
                Err(e) => r matches FetchStep::Fail(TileSourceError::MBTiles(s)) && s == e,
            },
    {
        match found {
            Ok(bytes) => FetchStep::Done(bytes),
            Err(e) => FetchStep::Fail(TileSourceError::MBTiles(e)),
        }
    }
}

proof fn lemma_used_keeps_keys_distinct(entries: Seq<(Seq<char>, Arc<Tile>)>, i: int)
    requires
        0 <= i < entries.len(),
        distinct_keys(entries),
    ensures
        distinct_keys(used(entries, i)),
{
    let after = used(entries, i);
    assert forall|a: int, b: int| 0 <= a < b < after.len() implies (#[trigger] after[a]).0 != (
    #[trigger] after[b]).0 by {
        let b0 = if b - 1 < i {
            b - 1
        } else {
            b
        };
        assert(after[b] == entries[b0]);
        if a > 0 {
            let a0 = if a - 1 < i {
                a - 1
            } else {
                a
            };
            assert(after[a] == entries[a0]);
        }
    }
}

// -- What names and caches keep --------------------------------------------

/// The number that decimal digits stand for, the ones last.
pub open spec fn read_decimal(s: Seq<char>) -> int
    decreases s.len(),
{
    if s.len() == 0 {
        0
    } else {
        10 * read_decimal(s.drop_last()) + (s.last() as int - '0' as int)
    }
}

/// Whether a text is the digits of a number, without a leading zero.
pub open spec fn spells(s: Seq<char>, n: int) -> bool {
    &&& s.len() > 0
    &&& forall|i: int| 0 <= i < s.len() ==> '0' <= #[trigger] s[i] <= '9'
    &&& s[0] == '0' ==> s.len() == 1
    &&& read_decimal(s) == n
}

/// A number is written in its decimal digits.
pub proof fn law_numbers_are_written_in_digits(n: nat)
    ensures
        spells(decimal(n), n as int),
    decreases n,
{
    lemma_decimal_is_digits(n);
    if n >= 10 {
        law_numbers_are_written_in_digits(n / 10);
        lemma_decimal_is_digits(n / 10);
        assert(decimal(n).drop_last() =~= decimal(n / 10));
        assert(decimal(n)[0] == decimal(n / 10)[0]);
        if decimal(n / 10)[0] == '0' {
            assert(decimal(n / 10).drop_last() =~= Seq::empty());
            assert(read_decimal(decimal(n / 10).drop_last()) == 0);
            assert(read_decimal(decimal(n / 10)) == 0);
        }
    } else {
        assert(decimal(n).drop_last() =~= Seq::empty());
        assert(read_decimal(decimal(n).drop_last()) == 0);
    }
}

/// The names of a tile give its zoom level, its column and its row, in that
/// order: in the cache with hyphens between them, at a server each in a
/// directory of its own, on disk the zoom level as a directory and the others in
/// the name of the file.
pub proof fn law_names_give_level_column_and_row(key: TileKey, base: Seq<char>) -> (r: (
    Seq<char>,
    Seq<char>,
    Seq<char>,
))
    ensures
        spells(r.0, key.z as int),
        spells(r.1, key.x as int),
        spells(r.2, key.y as int),
        key.name() == r.0 + "-"@ + r.1 + "-"@ + r.2,
        key.address(base) == base + r.0 + "/"@ + r.1 + "/"@ + r.2 + ".pbf"@,
        base.len() > 0 && base.last() != '/' ==> key.path_below(base) == base + "/"@ + r.0 + "/"@
            + r.1 + "-"@ + r.2 + ".pbf"@,
        base.len() == 0 || base.last() == '/' ==> key.path_below(base) == base + r.0 + "/"@ + r.1
            + "-"@ + r.2 + ".pbf"@,
{
    let r = (decimal(key.z as nat), decimal(key.x as nat), decimal(key.y as nat));
    law_numbers_are_written_in_digits(key.z as nat);
    law_numbers_are_written_in_digits(key.x as nat);
    law_numbers_are_written_in_digits(key.y as nat);
    reveal_strlit("/");
    reveal_strlit("-");
    assert("/"@ =~= seq!['/']);
    assert("-"@ =~= seq!['-']);
    lemma_path_text(base, key);
    lemma_address_text(base, key);
    assert(key.address(base) =~= base + r.0 + "/"@ + r.1 + "/"@ + r.2 + ".pbf"@);
    if base.len() > 0 && base.last() != '/' {
        assert(key.path_below(base) =~= base + "/"@ + r.0 + "/"@ + r.1 + "-"@ + r.2 + ".pbf"@);
    } else {
        assert(key.path_below(base) =~= base + r.0 + "/"@ + r.1 + "-"@ + r.2 + ".pbf"@);
    }
    r
}

/// The rows of an MBTiles file count from the other edge of the world: the row of
/// a tile and its row there add up to the last row.
pub proof fn law_rows_count_from_the_other_edge(key: TileKey)
    ensures
        key.flipped_row() + key.y == pow2(key.z as nat) - 1,
{
}

/// A key is found at the last entry with it, and not where no entry has it.
pub proof fn law_keys_are_found(
    entries: Seq<(Seq<char>, Arc<Tile>)>,
    i: int,
    key: Seq<char>,
)
    ensures
        0 <= i < entries.len() && distinct_keys(entries) && entries[i].0 == key ==> entry_at(
            entries,
            key,
        ) == Some(i),
        (forall|k: int| 0 <= k < entries.len() ==> (#[trigger] entries[k]).0 != key) ==> entry_at(
            entries,
            key,
        ) is None,
{
    lemma_entry_at(entries, key);
    if let Some(k) = entry_at(entries, key) {
        if 0 <= i < entries.len() && distinct_keys(entries) && entries[i].0 == key {
            assert(entries[k].0 == entries[i].0);
        }
    }
}

/// Storing a tile keeps every other tile, but for the one that was used longest
/// ago where there is no room for a new one.
pub proof fn law_storing_drops_at_most_the_oldest(
    entries: Seq<(Seq<char>, Arc<Tile>)>,
    limit: nat,
    key: Seq<char>,
    tile: Arc<Tile>,
    k: int,
)
    requires
        distinct_keys(entries),
        0 <= k < entries.len(),
        entries[k].0 != key,
        k < entries.len() - 1 || entries.len() < limit || (exists|i: int|
            0 <= i < entries.len() && (#[trigger] entries[i]).0 == key),
    ensures
        stored(entries, limit, key, tile).contains(entries[k]),
        stored(entries, limit, key, tile)[0] == (key, tile),
{
    lemma_entry_at(entries, key);
    let after = stored(entries, limit, key, tile);
    match entry_at(entries, key) {
        Some(i) => {
            let rest = entries.remove(i);
            if k < i {
                assert(rest[k] == entries[k]);
                assert(after[k + 1] == entries[k]);
            } else {
                assert(rest[k - 1] == entries[k]);
                assert(after[k] == entries[k]);
            }
        },
        None => {
            assert(after[k + 1] == entries[k]);
        },
    }
}

/// A tile that was looked up is in front of all others afterwards, and these keep
/// their order.
pub proof fn law_looking_up_moves_to_the_front(
    entries: Seq<(Seq<char>, Arc<Tile>)>,
    i: int,
    k: int,
)
    requires
        0 <= i < entries.len(),
        0 <= k < entries.len(),
    ensures
        used(entries, i)[0] == entries[i],
        k < i ==> used(entries, i)[k + 1] == entries[k],
        k > i ==> used(entries, i)[k] == entries[k],
{
}

/// A source is an MBTiles file exactly if its name ends so, whatever comes before
/// it.
pub proof fn law_sources_are_told_by_their_ending(base: Seq<char>, source: Seq<char>)
    ensures
        mode_of(base + ".mbtiles"@) == SourceMode::MBTiles,
        mode_of(source) == SourceMode::MBTiles ==> exists|start: Seq<char>|
            source == #[trigger] (start + ".mbtiles"@),
        (forall|start: Seq<char>| source != #[trigger] (start + ".mbtiles"@)) ==> mode_of(source)
            == SourceMode::Http,
{
    let whole = base + ".mbtiles"@;
    assert(whole.skip(whole.len() - ".mbtiles"@.len()) =~= ".mbtiles"@);
    if ends_with(source, ".mbtiles"@) {
        let start = source.take(source.len() - ".mbtiles"@.len());
        assert(source =~= start + ".mbtiles"@);
    }
}

/// The source of tiles is the MBTiles file where there is one, else the server.
pub proof fn law_files_come_before_servers(path: Seq<char>, server: Seq<char>)
    ensures
        source_of(Some(path), server) == path,
        source_of(None, server) == server,
{
}

} // verus!
