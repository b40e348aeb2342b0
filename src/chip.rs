//! The chip model: a decoded bitstream's configuration memory, and the tiles
//! carved out of it.
use vstd::prelude::*;
use crate::geometry::{DeviceGeometry, TileGeom, tile_size, tiles_size};

verus! {

/// One tile instance. Its bit `(frame, bit)` is `cram[frame * bits + bit]`.
pub struct Tile {
    pub name: String,
    pub tiletype: String,
    pub row: usize,
    pub col: usize,
    pub frames: usize,
    pub bits: usize,
    pub cram: Vec<bool>,
}

/// A decoded bitstream. `cram` holds the whole configuration memory, frame
/// after frame; `tiles` is empty until `cram_to_tiles` fills it.
pub struct Chip {
    pub family: String,
    pub device: String,
    pub idcode: u32,
    pub frames: usize,
    pub bits_per_frame: usize,
    pub cram: Vec<bool>,
    pub tiles: Vec<Tile>,
}

/// Bit `k` of the tile placed at `t`, read from configuration memory.
pub open spec fn tile_bit(cram: Seq<bool>, bpf: int, t: TileGeom, k: int) -> bool {
    cram[(t.start_frame + k / (t.bits as int)) * bpf + t.start_bit + k % (t.bits as int)]
}

/// The bits of the tile placed at `t`.
pub open spec fn tile_bits(cram: Seq<bool>, bpf: int, t: TileGeom) -> Seq<bool> {
    Seq::new(tile_size(t) as nat, |k: int| tile_bit(cram, bpf, t, k))
}

/// Total number of bits held by the first `n` tiles.
pub open spec fn tile_bit_total(ts: Seq<Tile>, n: int) -> int
    decreases n,
{
    if n <= 0 {
        0
    } else {
        tile_bit_total(ts, n - 1) + ts[n - 1].cram@.len()
    }
}

/// The tile built from placement `g`.
pub open spec fn expands_to(cram: Seq<bool>, bpf: int, g: TileGeom, t: Tile) -> bool {
    &&& t.name@ == g.name@
    &&& t.tiletype@ == g.tiletype@
    &&& t.row == g.row
    &&& t.col == g.col
    &&& t.frames == g.frames
    &&& t.bits == g.bits
    &&& t.cram@ == tile_bits(cram, bpf, g)
}

proof fn lemma_tile_index(d: DeviceGeometry, g: TileGeom, k: int)
    requires
        g.fits(d),
        0 <= k < tile_size(g),
    ensures
        g.bits > 0,
        0 <= k / (g.bits as int) < g.frames,
        (g.start_frame + k / (g.bits as int)) * d.bits_per_frame <= d.total_bits(),
        0 <= (g.start_frame + k / (g.bits as int)) * d.bits_per_frame + g.start_bit + k % (
        g.bits as int) < d.total_bits(),
{
    let b = g.bits as int;
    let f = k / b;
    assert(b > 0) by (nonlinear_arith)
        requires
            0 <= k < g.frames * b,
    ;
    assert(0 <= f < g.frames) by (nonlinear_arith)
        requires
            0 <= k < g.frames * b,
            b > 0,
            f == k / b,
    ;
    let r = k % b;
    assert(0 <= r < b);
    let row = g.start_frame + f;
    let bpf = d.bits_per_frame as int;
    assert(0 <= row * bpf <= row * bpf + g.start_bit + r < d.frames * bpf) by (nonlinear_arith)
        requires
            0 <= row < d.frames,
            0 <= r < b,
            g.start_bit + b <= bpf,
            0 <= g.start_bit,
    ;
}

/// Tiles the size of their placements hold as many bits together as the
/// placements cover.
pub proof fn lemma_totals(gs: Seq<TileGeom>, ts: Seq<Tile>, n: int)
    requires
        0 <= n <= gs.len(),
        gs.len() == ts.len(),
        forall|i: int| 0 <= i < n ==> (#[trigger] ts[i]).cram@.len() == tile_size(gs[i]),
    ensures
        tile_bit_total(ts, n) == tiles_size(gs, n),
    decreases n,
{
    if n > 0 {
        lemma_totals(gs, ts, n - 1);
    }
}

impl Tile {
    /// The tile's bit matrix is `frames` by `bits`.
    pub open spec fn wf(self) -> bool {
        self.cram@.len() == self.frames * self.bits
    }

    /// Bit `bit` of frame `frame` of the tile.
    pub fn bit(&self, frame: usize, bit: usize) -> (r: bool)
        requires
            self.wf(),
            frame < self.frames,
            bit < self.bits,
        ensures
            r == self.cram@[frame * self.bits + bit],
    {
        let n = self.cram.len();
        proof {
            assert(frame * self.bits + bit < self.frames * self.bits) by (nonlinear_arith)
                requires
                    frame < self.frames,
                    bit < self.bits,
            ;
        }
        self.cram[frame * self.bits + bit]
    }

    /// Indices of the set bits of the tile, in increasing order.
    pub fn set_bits(&self) -> (r: Vec<usize>)
        ensures
            crate::bits::is_bitset(r@),
            forall|i: int| 0 <= i < r@.len() ==> r@[i] < self.cram@.len() && self.cram@[r@[i] as int],
            forall|k: int| 0 <= k < self.cram@.len() && self.cram@[k] ==> r@.contains(k as usize),
    {
        let zero: Vec<bool> = vec![false; self.cram.len()];
        let r = crate::bits::diff(&self.cram, &zero);
        proof {
            crate::bits::lemma_diff_upto(self.cram@, zero@, self.cram@.len() as int);
        }
        r
    }
}

impl Chip {
    /// Configuration memory has the size of the device.
    pub open spec fn matches_device(self, d: DeviceGeometry) -> bool {
        &&& self.frames == d.frames
        &&& self.bits_per_frame == d.bits_per_frame
        &&& self.cram@.len() == d.total_bits()
    }

    /// Slices configuration memory into the tiles of the device, in the
    /// order of its layout, replacing any tiles there were. The tiles
    /// together hold exactly as many bits as configuration memory.
    pub fn cram_to_tiles(&mut self, d: &DeviceGeometry)
        requires
            d.wf(),
            old(self).matches_device(*d),
        ensures
            final(self).family == old(self).family,
            final(self).device == old(self).device,
            final(self).idcode == old(self).idcode,
            final(self).frames == old(self).frames,
            final(self).bits_per_frame == old(self).bits_per_frame,
            final(self).cram == old(self).cram,
            final(self).tiles@.len() == d.tiles@.len(),
            forall|i: int| 0 <= i < d.tiles@.len() ==>
                expands_to(old(self).cram@, d.bits_per_frame as int, d.tiles@[i], #[trigger] final(self).tiles@[i]),
            forall|i: int| 0 <= i < d.tiles@.len() ==> (#[trigger] final(self).tiles@[i]).wf(),
            tile_bit_total(final(self).tiles@, final(self).tiles@.len() as int) == final(self).cram@.len(),
    {
        let mut tiles: Vec<Tile> = Vec::new();
        let mut i: usize = 0;
        while i < d.tiles.len()
            invariant
                d.wf(),
                self.matches_device(*d),
                i <= d.tiles@.len(),
                tiles@.len() == i,
                forall|j: int| 0 <= j < i ==>
                    expands_to(self.cram@, d.bits_per_frame as int, d.tiles@[j], #[trigger] tiles@[j]),
            decreases d.tiles@.len() - i,
        {
            let g = &d.tiles[i];
            assert(g.fits(*d));
            proof {
                assert(g.frames * g.bits <= d.frames * d.bits_per_frame) by (nonlinear_arith)
                    requires
                        g.frames <= d.frames,
                        g.bits <= d.bits_per_frame,
                ;
            }
            let size = g.frames * g.bits;
            let mut bits: Vec<bool> = Vec::new();
            let mut k: usize = 0;
            while k < size
                invariant
                    d.wf(),
                    self.matches_device(*d),
                    g.fits(*d),
                    size == tile_size(*g),
                    k <= size,
                    bits@ =~= Seq::new(k as nat, |m: int| tile_bit(self.cram@, d.bits_per_frame as int, *g, m)),
                decreases size - k,
            {
                proof {
                    lemma_tile_index(*d, *g, k as int);
                }
                let row = g.start_frame + k / g.bits;
                let base = row * d.bits_per_frame;
                let idx = base + g.start_bit + k % g.bits;
                bits.push(self.cram[idx]);
                k += 1;
            }
            tiles.push(Tile {
                name: g.name.clone(),
                tiletype: g.tiletype.clone(),
                row: g.row,
                col: g.col,
                frames: g.frames,
                bits: g.bits,
                cram: bits,
            });
            i += 1;
        }
        proof {
            assert forall|j: int| 0 <= j < tiles@.len() implies (#[trigger] tiles@[j]).cram@.len()
                == tile_size(d.tiles@[j]) by {
                assert(expands_to(self.cram@, d.bits_per_frame as int, d.tiles@[j], tiles@[j]));
            }
            lemma_totals(d.tiles@, tiles@, tiles@.len() as int);
        }
        self.tiles = tiles;
    }

    /// Index of the first tile at grid position `(row, col)`.
    pub fn tile_at(&self, row: usize, col: usize) -> (r: Option<usize>)
        ensures
            r matches Some(i) ==> i < self.tiles@.len() && self.tiles@[i as int].row == row
                && self.tiles@[i as int].col == col,
            r matches Some(i) ==> forall|j: int| 0 <= j < i ==> !(self.tiles@[j].row == row
                && self.tiles@[j].col == col),
            r is None ==> forall|j: int| 0 <= j < self.tiles@.len() ==> !(self.tiles@[j].row == row
                && self.tiles@[j].col == col),
    {
        let mut i: usize = 0;
        while i < self.tiles.len()
            invariant
                i <= self.tiles@.len(),
                forall|j: int| 0 <= j < i ==> !(self.tiles@[j].row == row && self.tiles@[j].col == col),
            decreases self.tiles@.len() - i,
        {
            if self.tiles[i].row == row && self.tiles[i].col == col {
                return Some(i);
            }
            i += 1;
        }
        None
    }

    /// Indices, in increasing order, of the tiles of type `tiletype`.
    pub fn tiles_of_type(&self, tiletype: &String) -> (r: Vec<usize>)
        ensures
            crate::bits::is_bitset(r@),
            forall|i: int| 0 <= i < r@.len() ==> r@[i] < self.tiles@.len()
                && self.tiles@[r@[i] as int].tiletype@ == tiletype@,
            forall|j: int| 0 <= j < self.tiles@.len() && self.tiles@[j].tiletype@ == tiletype@
                ==> r@.contains(j as usize),
    {
        let mut r: Vec<usize> = Vec::new();
        let mut i: usize = 0;
        while i < self.tiles.len()
            invariant
                i <= self.tiles@.len(),
                crate::bits::is_bitset(r@),
                forall|k: int| 0 <= k < r@.len() ==> r@[k] < i
                    && self.tiles@[r@[k] as int].tiletype@ == tiletype@,
                forall|j: int| 0 <= j < i && self.tiles@[j].tiletype@ == tiletype@
                    ==> r@.contains(j as usize),
            decreases self.tiles@.len() - i,
        {
            if self.tiles[i].tiletype == *tiletype {
                let ghost old_r = r@;
                r.push(i);
                proof {
                    assert forall|j: int| 0 <= j < i + 1 && self.tiles@[j].tiletype@ == tiletype@
                        implies r@.contains(j as usize) by {
                        if j < i {
                            let m = choose|m: int| 0 <= m < old_r.len() && old_r[m] == j as usize;
                            assert(r@[m] == j as usize);
                        } else {
                            assert(r@[old_r.len() as int] == j as usize);
                        }
                    }
                }
            }
            i += 1;
        }
        r
    }
}

} // verus!
