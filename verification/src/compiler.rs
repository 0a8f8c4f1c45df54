//! Compiling the megatexture: every placed square's tile is read from the
//! primary source, validated, and composed onto a fixed-layout canvas; a tile
//! that the primary cannot supply is retried against a backup source, and the
//! whole compilation is rejected when too large a fraction of the tiles had to
//! come from the backup.

use vstd::prelude::*;
use crate::archive::{
    entry_by_name, has_entry, lookup, readable_names, source_unchanged, zip_entries, PackSource,
};
use crate::atlas::{Atlas, SquareModel};
use crate::codec::{decoded_rgb, png_decodes, png_header, read_texture_rgb, tile_decodable};
use crate::tile::{blit_bytes, RgbImage, CHANNELS, TILE_EDGE};

verus! {

/// Numerator of the highest tolerated fraction of squares resolved via the
/// backup source before the whole compilation is rejected.
pub const MAX_FAIL_RATE_NUM: u64 = 1;

/// Denominator of that fraction: the default budget is 1/20, that is 5%, and
/// the bound is strict, so a failure rate of exactly 5% is still accepted.
pub const MAX_FAIL_RATE_DEN: u64 = 20;

/// The failure budget is exceeded: strictly more than the tolerated fraction
/// of the squares needed the backup.
pub open spec fn budget_exceeded(failures: int, total: int) -> bool {
    failures * (MAX_FAIL_RATE_DEN as int) > total * (MAX_FAIL_RATE_NUM as int)
}

/// Why compiling a megatexture failed.
#[derive(Debug, Clone, PartialEq)]
pub enum CompileError {
    /// This square failed in the primary source and again in the backup.
    BackupLoad(String),
    /// This square failed and the compilation had no second chance.
    TileLoad(String),
    /// Every square resolved, but more than the tolerated fraction came from
    /// the backup: the names that fell back, out of `total` squares.
    ExcessiveFallback { failures: Vec<String>, total: usize },
}

/// Width (and height), in pixels, of the canvas for grid side `s`.
pub open spec fn canvas_width(s: int) -> int {
    (TILE_EDGE as int) * s
}

/// The zero-filled canvas bytes for grid side `s`.
pub open spec fn blank_canvas(s: int) -> Seq<u8> {
    Seq::new((canvas_width(s) * canvas_width(s) * (CHANNELS as int)) as nat, |i: int| 0u8)
}

/// The canvas bytes after the tiles of the first `k` squares have been
/// composed onto the blank canvas, in placement order.
pub open spec fn megatexture_upto(
    s: int,
    squares: Seq<SquareModel>,
    tiles: Seq<Seq<u8>>,
    k: int,
) -> Seq<u8>
    decreases k,
{
    if k <= 0 {
        blank_canvas(s)
    } else {
        blit_bytes(
            megatexture_upto(s, squares, tiles, k - 1),
            canvas_width(s),
            (TILE_EDGE as int) * squares[k - 1].x,
            (TILE_EDGE as int) * squares[k - 1].y,
            tiles[k - 1],
            TILE_EDGE as int,
            TILE_EDGE as int,
        )
    }
}

/// The megatexture: every square's tile composed, in placement order.
pub open spec fn megatexture_bytes(s: int, squares: Seq<SquareModel>, tiles: Seq<Seq<u8>>) -> Seq<
    u8,
> {
    megatexture_upto(s, squares, tiles, squares.len() as int)
}

/// This source can supply the named square: its name index knows the name,
/// the selected entry is readable, and its contents decode to an image of
/// exactly the tile dimensions that can be held as a canonical tile raster.
pub open spec fn square_resolves(a: PackSource, name: Seq<char>) -> bool {
    &&& lookup(a).dom().contains(name)
    &&& readable_names(a).contains(name)
    &&& png_decodes(lookup(a)[name])
    &&& tile_decodable(lookup(a)[name])
    &&& png_header(lookup(a)[name])->Some_0.0 == TILE_EDGE
    &&& png_header(lookup(a)[name])->Some_0.1 == TILE_EDGE
}

/// The tile raster a square composes with: the primary's copy when the
/// primary resolves the name, the backup's copy otherwise — primary first,
/// never a free choice.
pub open spec fn resolved_tile(p: PackSource, b: PackSource, name: Seq<char>) -> Seq<u8> {
    if square_resolves(p, name) {
        decoded_rgb(lookup(p)[name])
    } else {
        decoded_rgb(lookup(b)[name])
    }
}

/// The tiles of all squares, in placement order.
pub open spec fn resolved_tiles(p: PackSource, b: PackSource, squares: Seq<SquareModel>) -> Seq<
    Seq<u8>,
> {
    Seq::new(squares.len(), |i: int| resolved_tile(p, b, squares[i].name))
}

/// The names of the squares the primary cannot supply, in placement order:
/// exactly the squares that fall back to the backup source.
pub open spec fn fallback_names(p: PackSource, squares: Seq<SquareModel>) -> Seq<Seq<char>>
    decreases squares.len(),
{
    if squares.len() == 0 {
        Seq::empty()
    } else {
        let prefix = fallback_names(p, squares.drop_last());
        if !square_resolves(p, squares.last().name) {
            prefix.push(squares.last().name)
        } else {
            prefix
        }
    }
}

/// Every square's name resolves in the primary or in the backup.
pub open spec fn all_resolvable(p: PackSource, b: PackSource, squares: Seq<SquareModel>) -> bool {
    forall|i: int|
        0 <= i < squares.len() ==> square_resolves(p, (#[trigger] squares[i]).name)
            || square_resolves(b, squares[i].name)
}

/// Determinism: two compilations over sources with the same modelled contents
/// (name index, readability, entry bytes) and the same placement compose
/// byte-identical canvases.
pub proof fn lemma_compile_deterministic(
    p1: PackSource,
    b1: PackSource,
    p2: PackSource,
    b2: PackSource,
    side: int,
    squares: Seq<SquareModel>,
)
    requires
        lookup(p1) == lookup(p2),
        readable_names(p1) == readable_names(p2),
        lookup(b1) == lookup(b2),
        readable_names(b1) == readable_names(b2),
    ensures
        megatexture_bytes(side, squares, resolved_tiles(p1, b1, squares)) == megatexture_bytes(
            side,
            squares,
            resolved_tiles(p2, b2, squares),
        ),
{
    assert forall|i: int| 0 <= i < squares.len() implies resolved_tiles(p1, b1, squares)[i]
        == resolved_tiles(p2, b2, squares)[i] by {
        assert(square_resolves(p1, squares[i].name) == square_resolves(p2, squares[i].name));
    }
    assert(resolved_tiles(p1, b1, squares) =~= resolved_tiles(p2, b2, squares));
}

/// The composed bytes depend only on the first `k` tiles.
proof fn lemma_upto_tiles_prefix(
    s: int,
    squares: Seq<SquareModel>,
    t1: Seq<Seq<u8>>,
    t2: Seq<Seq<u8>>,
    k: int,
)
    requires
        forall|j: int| 0 <= j < k ==> t1[j] == t2[j],
    ensures
        megatexture_upto(s, squares, t1, k) == megatexture_upto(s, squares, t2, k),
    decreases k,
{
    if k > 0 {
        lemma_upto_tiles_prefix(s, squares, t1, t2, k - 1);
    }
}

/// The requirements on an atlas for compilation: at least one grid cell,
/// every square inside the grid, and a canvas whose sizes fit the 32-bit
/// image representation. The empty atlas (side 0) is excluded because the
/// image type demands positive dimensions, so there is no canvas to return
/// for it; callers reject it before compiling.
pub open spec fn compilable(a: crate::atlas::AtlasModel) -> bool {
    &&& 0 < a.side_length
    &&& a.in_bounds()
    &&& a.squares.len() <= u32::MAX
    &&& canvas_width(a.side_length as int) * canvas_width(a.side_length as int) * (CHANNELS as int)
        <= u32::MAX
}

/// Loads one square's tile from a source: opens the entry by exact name,
/// decodes it, and insists on the exact tile dimensions, which re-validates
/// what the builder's probe established. Succeeds exactly when the source
/// resolves the name, and then hands back exactly the entry's canonical tile.
fn load_square(source: &mut PackSource, name: &str) -> (r: Option<RgbImage>)
    ensures
        source_unchanged(*old(source), *final(source)),
        r is Some <==> square_resolves(*old(source), name@),
        r matches Some(img) ==> {
            &&& img.wf()
            &&& img.spec_width() == TILE_EDGE
            &&& img.spec_height() == TILE_EDGE
            &&& img.bytes().len() == TILE_EDGE * TILE_EDGE * CHANNELS
            &&& img.bytes() == decoded_rgb(lookup(*old(source))[name@])
            &&& has_entry(zip_entries(*old(source)), name@)
        },
{
    match entry_by_name(source, name) {
        Ok(bytes) => match read_texture_rgb(&bytes) {
            Ok(img) => {
                let (w, h) = img.dimensions();
                if w == TILE_EDGE && h == TILE_EDGE {
                    proof {
                        crate::tile::lemma_len_is_height_times_stride(&img);
                    }
                    Some(img)
                } else {
                    None
                }
            },
            Err(_) => None,
        },
        Err(_) => None,
    }
}

/// Compiles the megatexture from a primary source with a backup source: each
/// square's tile is taken from the primary; a square whose primary copy is
/// missing or invalid is recorded and retried against the backup; a square
/// that fails in both is fatal; and after all squares resolve, the
/// compilation is rejected when strictly more than the tolerated fraction of
/// squares came from the backup. Success is owed whenever every square
/// resolves and the fallback rate stays within the budget; on success the
/// canvas is exactly the resolved tiles, primary first, composed in placement
/// order, and the returned names are exactly the squares that fell back.
#[verifier::loop_isolation(false)]
pub fn compile_megatexture(primary: &mut PackSource, backup: &mut PackSource, atlas: &Atlas) -> (r:
    Result<(RgbImage, Vec<String>), CompileError>)
    requires
        compilable(atlas@),
    ensures
        source_unchanged(*old(primary), *final(primary)),
        source_unchanged(*old(backup), *final(backup)),
        r matches Ok(out) ==> {
            &&& out.0.wf()
            &&& out.0.spec_width() == canvas_width(atlas@.side_length as int)
            &&& out.0.spec_height() == canvas_width(atlas@.side_length as int)
            &&& all_resolvable(*old(primary), *old(backup), atlas@.squares)
            &&& out.0.bytes() == megatexture_bytes(
                atlas@.side_length as int,
                atlas@.squares,
                resolved_tiles(*old(primary), *old(backup), atlas@.squares),
            )
            &&& out.1.deep_view() == fallback_names(*old(primary), atlas@.squares)
            &&& !budget_exceeded(out.1@.len() as int, atlas@.squares.len() as int)
            &&& forall|i: int|
                0 <= i < atlas@.squares.len() ==> has_entry(
                    zip_entries(*old(primary)),
                    (#[trigger] atlas@.squares[i]).name,
                ) || has_entry(zip_entries(*old(backup)), atlas@.squares[i].name)
        },
        all_resolvable(*old(primary), *old(backup), atlas@.squares) && !budget_exceeded(
            fallback_names(*old(primary), atlas@.squares).len() as int,
            atlas@.squares.len() as int,
        ) ==> r is Ok,
        all_resolvable(*old(primary), *old(backup), atlas@.squares) && budget_exceeded(
            fallback_names(*old(primary), atlas@.squares).len() as int,
            atlas@.squares.len() as int,
        ) ==> (r matches Err(e) && e is ExcessiveFallback),
        r matches Err(CompileError::ExcessiveFallback { failures, total }) ==> total
            == atlas@.squares.len() && failures.deep_view() == fallback_names(
            *old(primary),
            atlas@.squares,
        ) && budget_exceeded(failures@.len() as int, total as int),
        r matches Err(CompileError::BackupLoad(name)) ==> exists|i: int|
            0 <= i < atlas@.squares.len() && (#[trigger] atlas@.squares[i]).name == name@
                && !square_resolves(*old(primary), name@) && !square_resolves(*old(backup), name@),
        !all_resolvable(*old(primary), *old(backup), atlas@.squares) ==> (r matches Err(e) && e
            is BackupLoad),
{
    let ghost sqm = atlas@.squares;
    let side = atlas.side_length;
    proof {
        assert((TILE_EDGE as int) * (side as int) <= canvas_width(side as int) * canvas_width(
            side as int,
        ) * (CHANNELS as int)) by (nonlinear_arith)
            requires
                1 <= canvas_width(side as int),
                canvas_width(side as int) == (TILE_EDGE as int) * (side as int),
        ;
        assert(canvas_width(side as int) * (CHANNELS as int) <= canvas_width(side as int)
            * canvas_width(side as int) * (CHANNELS as int)) by (nonlinear_arith)
            requires
                1 <= canvas_width(side as int),
        ;
    }
    let cw: u32 = TILE_EDGE * side;
    let mut canvas = RgbImage::new(cw, cw);
    proof {
        assert(canvas.bytes() =~= blank_canvas(side as int));
    }
    let mut failures: Vec<String> = Vec::new();
    let ghost mut tiles: Seq<Seq<u8>> = Seq::empty();
    let n = atlas.squares.len();
    let mut i: usize = 0;
    while i < n
        invariant
            source_unchanged(*old(primary), *primary),
            source_unchanged(*old(backup), *backup),
            i <= n,
            tiles.len() == i,
            canvas.wf(),
            canvas.spec_width() == cw,
            canvas.spec_height() == cw,
            canvas.bytes() == megatexture_upto(side as int, sqm, tiles, i as int),
            forall|t: int|
                0 <= t < i ==> tiles[t] == resolved_tile(
                    *old(primary),
                    *old(backup),
                    (#[trigger] sqm[t]).name,
                ),
            failures@.len() <= i,
            failures.deep_view() == fallback_names(*old(primary), sqm.take(i as int)),
            forall|t: int|
                0 <= t < i ==> square_resolves(*old(primary), (#[trigger] sqm[t]).name)
                    || square_resolves(*old(backup), sqm[t].name),
            forall|t: int|
                0 <= t < i ==> has_entry(zip_entries(*old(primary)), (#[trigger] sqm[t]).name)
                    || has_entry(zip_entries(*old(backup)), sqm[t].name),
        decreases n - i,
    {
        let sq = &atlas.squares[i];
        proof {
            assert(sqm[i as int] == atlas.squares@[i as int]@);
            assert(sqm[i as int].x < side && sqm[i as int].y < side);
            assert(sqm.take((i + 1) as int).drop_last() =~= sqm.take(i as int));
            assert(sqm.take((i + 1) as int).last() == sqm[i as int]);
        }
        let ghost fb_pre = failures.deep_view();
        let tile = match load_square(primary, sq.name.as_str()) {
            Some(t) => {
                proof {
                    assert(square_resolves(*old(primary), sqm[i as int].name));
                }
                t
            },
            None => {
                proof {
                    assert(!square_resolves(*old(primary), sqm[i as int].name));
                }
                failures.push(sq.name.clone());
                proof {
                    assert(failures.deep_view() =~= fb_pre.push(sqm[i as int].name));
                }
                match load_square(backup, sq.name.as_str()) {
                    Some(t) => {
                        proof {
                            assert(square_resolves(*old(backup), sqm[i as int].name));
                        }
                        t
                    },
                    None => {
                        proof {
                            assert(!square_resolves(*old(backup), sqm[i as int].name));
                        }
                        return Err(CompileError::BackupLoad(sq.name.clone()));
                    },
                }
            },
        };
        let px: u32 = TILE_EDGE * sq.x;
        let py: u32 = TILE_EDGE * sq.y;
        let ghost tiles_pre = tiles;
        canvas.blit(px, py, &tile);
        proof {
            tiles = tiles.push(tile.bytes());
            lemma_upto_tiles_prefix(side as int, sqm, tiles_pre, tiles, i as int);
            assert(tiles[i as int] == resolved_tile(
                *old(primary),
                *old(backup),
                sqm[i as int].name,
            ));
        }
        i = i + 1;
    }
    proof {
        assert(sqm.take(n as int) =~= sqm);
    }
    if failures.len() as u64 * MAX_FAIL_RATE_DEN > n as u64 * MAX_FAIL_RATE_NUM {
        return Err(CompileError::ExcessiveFallback { failures, total: n });
    }
    proof {
        assert(tiles =~= resolved_tiles(*old(primary), *old(backup), sqm));
    }
    Ok((canvas, failures))
}

/// Single-source compilation, the degenerate case where primary and backup
/// would be the same archive: there is no second chance, so any missing or
/// invalid tile is immediately fatal, regardless of the failure budget.
/// Success is owed whenever the one source resolves every square's name, and
/// then the canvas is exactly the source's tiles composed in placement order.
#[verifier::loop_isolation(false)]
pub fn compile_megatexture_single(source: &mut PackSource, atlas: &Atlas) -> (r: Result<
    RgbImage,
    CompileError,
>)
    requires
        compilable(atlas@),
    ensures
        source_unchanged(*old(source), *final(source)),
        r matches Ok(img) ==> {
            &&& img.wf()
            &&& img.spec_width() == canvas_width(atlas@.side_length as int)
            &&& img.spec_height() == canvas_width(atlas@.side_length as int)
            &&& img.bytes() == megatexture_bytes(
                atlas@.side_length as int,
                atlas@.squares,
                resolved_tiles(*old(source), *old(source), atlas@.squares),
            )
            &&& forall|i: int|
                0 <= i < atlas@.squares.len() ==> square_resolves(
                    *old(source),
                    (#[trigger] atlas@.squares[i]).name,
                )
            &&& forall|i: int|
                0 <= i < atlas@.squares.len() ==> has_entry(
                    zip_entries(*old(source)),
                    (#[trigger] atlas@.squares[i]).name,
                )
        },
        (forall|i: int|
            0 <= i < atlas@.squares.len() ==> square_resolves(
                *old(source),
                (#[trigger] atlas@.squares[i]).name,
            )) ==> r is Ok,
        r matches Err(CompileError::TileLoad(name)) ==> exists|i: int|
            0 <= i < atlas@.squares.len() && (#[trigger] atlas@.squares[i]).name == name@
                && !square_resolves(*old(source), name@),
        !(forall|i: int|
            0 <= i < atlas@.squares.len() ==> square_resolves(
                *old(source),
                (#[trigger] atlas@.squares[i]).name,
            )) ==> (r matches Err(e) && e is TileLoad),
{
    let ghost sqm = atlas@.squares;
    let side = atlas.side_length;
    proof {
        assert((TILE_EDGE as int) * (side as int) <= canvas_width(side as int) * canvas_width(
            side as int,
        ) * (CHANNELS as int)) by (nonlinear_arith)
            requires
                1 <= canvas_width(side as int),
                canvas_width(side as int) == (TILE_EDGE as int) * (side as int),
        ;
        assert(canvas_width(side as int) * (CHANNELS as int) <= canvas_width(side as int)
            * canvas_width(side as int) * (CHANNELS as int)) by (nonlinear_arith)
            requires
                1 <= canvas_width(side as int),
        ;
    }
    let cw: u32 = TILE_EDGE * side;
    let mut canvas = RgbImage::new(cw, cw);
    proof {
        assert(canvas.bytes() =~= blank_canvas(side as int));
    }
    let ghost mut tiles: Seq<Seq<u8>> = Seq::empty();
    let n = atlas.squares.len();
    let mut i: usize = 0;
    while i < n
        invariant
            source_unchanged(*old(source), *source),
            i <= n,
            tiles.len() == i,
            canvas.wf(),
            canvas.spec_width() == cw,
            canvas.spec_height() == cw,
            canvas.bytes() == megatexture_upto(side as int, sqm, tiles, i as int),
            forall|t: int|
                0 <= t < i ==> tiles[t] == resolved_tile(
                    *old(source),
                    *old(source),
                    (#[trigger] sqm[t]).name,
                ),
            forall|t: int|
                0 <= t < i ==> square_resolves(*old(source), (#[trigger] sqm[t]).name),
            forall|t: int|
                0 <= t < i ==> has_entry(zip_entries(*old(source)), (#[trigger] sqm[t]).name),
        decreases n - i,
    {
        let sq = &atlas.squares[i];
        proof {
            assert(sqm[i as int] == atlas.squares@[i as int]@);
            assert(sqm[i as int].x < side && sqm[i as int].y < side);
        }
        let tile = match load_square(source, sq.name.as_str()) {
            Some(t) => t,
            None => {
                proof {
                    assert(!square_resolves(*old(source), sqm[i as int].name));
                }
                return Err(CompileError::TileLoad(sq.name.clone()));
            },
        };
        let px: u32 = TILE_EDGE * sq.x;
        let py: u32 = TILE_EDGE * sq.y;
        let ghost tiles_pre = tiles;
        canvas.blit(px, py, &tile);
        proof {
            tiles = tiles.push(tile.bytes());
            lemma_upto_tiles_prefix(side as int, sqm, tiles_pre, tiles, i as int);
            assert(tiles[i as int] == resolved_tile(*old(source), *old(source), sqm[i as int].name));
        }
        i = i + 1;
    }
    proof {
        assert(tiles =~= resolved_tiles(*old(source), *old(source), sqm));
    }
    Ok(canvas)
}

} // verus!
