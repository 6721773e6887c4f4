//! The tile assembler: expands each proto-palette into one square tile's
//! worth of pixel color indices and stacks all tiles vertically into one
//! indexed pixel buffer.

use vstd::prelude::*;
use vstd::arithmetic::div_mod::{lemma_fundamental_div_mod_converse, lemma_mod_bound};

verus! {

/// The assembled pixel buffer: one band of `s * s` pixels per
/// proto-palette, stacked in emission order. Pixel `o` of a band shows
/// color `o % len` of the band's proto-palette, which wraps the palette
/// cyclically across the tile in raster order.
pub open spec fn assembled(tiles: Seq<Seq<u8>>, s: int) -> Seq<u8> {
    Seq::new(
        (tiles.len() * (s * s)) as nat,
        |px: int| tiles[px / (s * s)][(px % (s * s)) % (tiles[px / (s * s)].len() as int)],
    )
}

/// Expands every proto-palette into one square tile of edge `tile_size`
/// and stacks the tiles vertically in emission order. Each tile reads its
/// proto-palette in raster order and wraps around once the tile has more
/// pixels than the palette has colors, so a tile uses only colors of its
/// own proto-palette. The output is a function of the inputs alone: no
/// hidden state, no randomness.
#[verifier::loop_isolation(false)]
#[verifier::rlimit(60)]
pub fn assemble_tiles(tiles: &Vec<Vec<u8>>, tile_size: usize) -> (r: Vec<u8>)
    requires
        tile_size >= 1,
        forall|t: int| 0 <= t < tiles@.len() ==> (#[trigger] tiles.deep_view()[t]).len() > 0,
        tiles@.len() * (tile_size * tile_size) <= usize::MAX,
    ensures
        r@ == assembled(tiles.deep_view(), tile_size as int),
        r@.len() == tiles@.len() * (tile_size * tile_size),
{
    let s = tile_size;
    let n = tiles.len();
    let ghost dv = tiles.deep_view();
    let ghost si = s as int;
    let ghost buf = assembled(dv, si);
    proof {
        assert(buf.len() == n * (si * si));
    }
    let mut out: Vec<u8> = Vec::new();
    let mut t: usize = 0;
    while t < n
        invariant
            t <= n,
            out@ == buf.take(t as int * (si * si)),
        decreases n - t,
    {
        proof {
            assert(dv[t as int] =~= tiles@[t as int]@);
            assert((t as int + 1) * (si * si) <= n * (si * si)) by (nonlinear_arith)
                requires
                    t < n,
                    si >= 1,
            ;
            assert(0 <= t as int * (si * si) && t as int * (si * si) + si * si == (t as int + 1)
                * (si * si)) by (nonlinear_arith)
                requires
                    0 <= t,
                    si >= 1,
            ;
        }
        let tile = &tiles[t];
        let len = tile.len();
        let mut y: usize = 0;
        while y < s
            invariant
                y <= s,
                out@ == buf.take(t as int * (si * si) + y as int * si),
                out@.len() == t as int * (si * si) + y as int * si,
            decreases s - y,
        {
            proof {
                assert(y as int * si + si == (y as int + 1) * si) by (nonlinear_arith);
                assert((y as int + 1) * si <= si * si) by (nonlinear_arith)
                    requires
                        y < s,
                        si == s as int,
                        si >= 1,
                ;
            }
            let mut x: usize = 0;
            while x < s
                invariant
                    x <= s,
                    out@ == buf.take(t as int * (si * si) + y as int * si + x as int),
                    out@.len() == t as int * (si * si) + y as int * si + x as int,
                decreases s - x,
            {
                let ghost pos = t as int * (si * si) + y as int * si + x as int;
                proof {
                    assert(0 <= (y as int) * si + (x as int) && (y as int) * si + (x as int)
                        < si * si) by (nonlinear_arith)
                        requires
                            0 <= y < s,
                            0 <= x < s,
                            si == s as int,
                    ;
                    assert(pos == t as int * (si * si) + (y as int * si + x as int));
                    lemma_fundamental_div_mod_converse(
                        pos,
                        si * si,
                        t as int,
                        y as int * si + x as int,
                    );
                    assert(pos < buf.len());
                    let band = dv[t as int];
                    assert(buf[pos] == band[((y as int) * si + (x as int)) % (band.len() as int)]);
                }
                let px = tile[(x + y * s) % len];
                out.push(px);
                proof {
                    assert(out@ =~= buf.take(pos + 1));
                }
                x += 1;
            }
            y += 1;
        }
        t += 1;
    }
    proof {
        assert(buf.take(n as int * (si * si)) =~= buf);
    }
    out
}

/// Every pixel of the assembled buffer shows a color of the proto-palette
/// of the tile it falls in: the adversarial property the whole design
/// exists to enforce, read back from the buffer itself.
pub proof fn lemma_assembled_round_trip(tiles: Seq<Seq<u8>>, s: int)
    requires
        s >= 1,
        forall|t: int| 0 <= t < tiles.len() ==> (#[trigger] tiles[t]).len() > 0,
    ensures
        forall|t: int, o: int|
            0 <= t < tiles.len() && 0 <= o < s * s ==> tiles[t].contains(
                #[trigger] assembled(tiles, s)[t * (s * s) + o],
            ),
{
    assert forall|t: int, o: int|
        0 <= t < tiles.len() && 0 <= o < s * s implies tiles[t].contains(
        #[trigger] assembled(tiles, s)[t * (s * s) + o],
    ) by {
        let pos = t * (s * s) + o;
        let n0 = tiles.len() as int;
        let d = s * s;
        assert(0 <= pos && pos + 1 <= n0 * d) by (nonlinear_arith)
            requires
                0 <= t,
                t + 1 <= n0,
                0 <= o < d,
                pos == t * d + o,
        ;
        assert(tiles.len() * (s * s) == n0 * d);
        lemma_fundamental_div_mod_converse(pos, s * s, t, o);
        let tl = tiles[t].len() as int;
        lemma_mod_bound(o, tl);
        let v = assembled(tiles, s)[pos];
        assert(v == tiles[t][o % tl]);
        assert(tiles[t].contains(v));
    }
}

} // verus!
