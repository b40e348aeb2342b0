//! Static device geometry: the configuration-memory size of each device and
//! where each tile's bits lie in it.
use vstd::prelude::*;

verus! {

/// Placement of one tile in a device's configuration memory. The tile owns
/// `frames` consecutive frames starting at `start_frame`, and in each of them
/// `bits` consecutive bits starting at `start_bit`.
pub struct TileGeom {
    pub name: String,
    pub tiletype: String,
    pub row: usize,
    pub col: usize,
    pub start_frame: usize,
    pub start_bit: usize,
    pub frames: usize,
    pub bits: usize,
}

/// Layout of one device of a family, identified in bitstreams by `idcode`.
/// Configuration memory is `frames` frames of `bits_per_frame` bits.
pub struct DeviceGeometry {
    pub idcode: u32,
    pub family: String,
    pub name: String,
    pub rows: usize,
    pub cols: usize,
    pub frames: usize,
    pub bits_per_frame: usize,
    pub tiles: Vec<TileGeom>,
}

/// Number of configuration bits a tile owns.
pub open spec fn tile_size(t: TileGeom) -> int {
    t.frames * t.bits
}

/// Total size of the first `n` tiles of a layout.
pub open spec fn tiles_size(ts: Seq<TileGeom>, n: int) -> int
    decreases n,
{
    if n <= 0 {
        0
    } else {
        tiles_size(ts, n - 1) + tile_size(ts[n - 1])
    }
}

proof fn lemma_tiles_size_grows(ts: Seq<TileGeom>, a: int, b: int)
    requires
        0 <= a <= b <= ts.len(),
    ensures
        tiles_size(ts, a) <= tiles_size(ts, b),
    decreases b - a,
{
    if a < b {
        lemma_tiles_size_grows(ts, a, b - 1);
        assert(tile_size(ts[b - 1]) >= 0) by (nonlinear_arith)
            requires
                ts[b - 1].frames >= 0,
                ts[b - 1].bits >= 0,
        ;
    }
}

impl TileGeom {
    /// The tile lies on the device grid and inside configuration memory.
    pub open spec fn fits(self, d: DeviceGeometry) -> bool {
        &&& self.row < d.rows
        &&& self.col < d.cols
        &&& self.start_frame + self.frames <= d.frames
        &&& self.start_bit + self.bits <= d.bits_per_frame
    }
}

impl DeviceGeometry {
    /// Total size of configuration memory, in bits.
    pub open spec fn total_bits(self) -> int {
        self.frames * self.bits_per_frame
    }

    /// Memory size is representable, every tile fits, and the tiles together
    /// account for every configuration bit.
    pub open spec fn wf(self) -> bool {
        &&& self.total_bits() <= usize::MAX
        &&& forall|i: int| 0 <= i < self.tiles@.len() ==> #[trigger] self.tiles@[i].fits(self)
        &&& tiles_size(self.tiles@, self.tiles@.len() as int) == self.total_bits()
    }

    /// Whether the geometry is well formed.
    pub fn is_valid(&self) -> (r: bool)
        ensures
            r == self.wf(),
    {
        let total = match self.frames.checked_mul(self.bits_per_frame) {
            Some(t) => t,
            None => return false,
        };
        let mut sum: usize = 0;
        let mut i: usize = 0;
        while i < self.tiles.len()
            invariant
                total == self.total_bits(),
                i <= self.tiles@.len(),
                sum == tiles_size(self.tiles@, i as int),
                sum <= total,
                forall|j: int| 0 <= j < i ==> #[trigger] self.tiles@[j].fits(*self),
            decreases self.tiles@.len() - i,
        {
            let t = &self.tiles[i];
            if !(t.row < self.rows && t.col < self.cols && t.start_frame <= self.frames && t.frames
                <= self.frames - t.start_frame && t.start_bit <= self.bits_per_frame && t.bits
                <= self.bits_per_frame - t.start_bit) {
                assert(!self.tiles@[i as int].fits(*self));
                return false;
            }
            proof {
                assert(t.frames * t.bits <= self.frames * self.bits_per_frame) by (nonlinear_arith)
                    requires
                        t.frames <= self.frames,
                        t.bits <= self.bits_per_frame,
                ;
            }
            let size = t.frames * t.bits;
            if size > total - sum {
                proof {
                    lemma_tiles_size_grows(self.tiles@, i as int + 1, self.tiles@.len() as int);
                }
                return false;
            }
            sum = sum + size;
            i += 1;
        }
        sum == total
    }

    /// Size of configuration memory in bits.
    pub fn total_size(&self) -> (r: usize)
        requires
            self.wf(),
        ensures
            r == self.total_bits(),
    {
        self.frames * self.bits_per_frame
    }
}

} // verus!
