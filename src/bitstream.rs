//! The bitstream decoder.
//!
//! A bitstream is the four-byte sync sequence `FF FF BD B3` followed by
//! frames. Each frame is a command byte, a payload length as a big-endian
//! 32-bit integer, and that many payload bytes:
//! - `E2` names the device: a four-byte big-endian idcode;
//! - `80` carries configuration memory, eight bits per byte, most significant
//!   bit first, appended to what earlier such frames carried;
//! - `22` is a control frame whose payload is ignored;
//! - `5E` commits: decoding stops there, and whatever follows is ignored.
//! The stream may also simply end after a frame. Configuration memory must
//! come to exactly as many bytes as the device's memory needs, the unused
//! bits of the last byte being padding.
use vstd::prelude::*;
use crate::chip::{Chip, Tile, expands_to, tile_bit_total, lemma_totals};
use crate::geometry::DeviceGeometry;

verus! {

pub const CMD_DEVICE_ID: u8 = 0xE2;
pub const CMD_CRAM: u8 = 0x80;
pub const CMD_CONTROL: u8 = 0x22;
pub const CMD_COMMIT: u8 = 0x5E;

/// Why a buffer is not a bitstream.
#[derive(PartialEq, Eq, Structural, Debug, Clone, Copy)]
pub enum DecodeError {
    /// The sync sequence is missing.
    MalformedHeader,
    /// A frame starts with a command byte that is none of the known ones.
    UnknownCommand(u8),
    /// A frame is cut short, a device frame is not four bytes long, or the
    /// configuration memory carried does not have the device's size.
    FrameSizeMismatch,
    /// No device frame came before the end of the stream.
    MissingDeviceId,
    /// The device frame names an idcode that no known device has.
    UnknownDevice(u32),
}

/// Whether the buffer starts with the sync sequence.
pub open spec fn has_magic(buf: Seq<u8>) -> bool {
    buf.len() >= 4 && buf[0] == 0xFFu8 && buf[1] == 0xFFu8 && buf[2] == 0xBDu8 && buf[3] == 0xB3u8
}

/// The big-endian 32-bit integer at `p`.
pub open spec fn be32(buf: Seq<u8>, p: int) -> int {
    buf[p] * 0x1000000 + buf[p + 1] * 0x10000 + buf[p + 2] * 0x100 + buf[p + 3]
}

/// Walks the frames from `pos`, given the idcode and memory bytes gathered so
/// far; the result is the idcode last named and all memory bytes.
pub open spec fn frames_from(buf: Seq<u8>, pos: int, id: Option<u32>, data: Seq<u8>) -> Result<
    (Option<u32>, Seq<u8>),
    DecodeError,
>
    decreases buf.len() - pos,
{
    if pos < 0 || pos >= buf.len() {
        Ok((id, data))
    } else {
        let cmd = buf[pos];
        if cmd != CMD_DEVICE_ID && cmd != CMD_CRAM && cmd != CMD_CONTROL && cmd != CMD_COMMIT {
            Err(DecodeError::UnknownCommand(cmd))
        } else if buf.len() - pos < 5 {
            Err(DecodeError::FrameSizeMismatch)
        } else {
            let len = be32(buf, pos + 1);
            if len > buf.len() - pos - 5 {
                Err(DecodeError::FrameSizeMismatch)
            } else {
                let next = pos + 5 + len;
                if cmd == CMD_COMMIT {
                    Ok((id, data))
                } else if cmd == CMD_CONTROL {
                    frames_from(buf, next, id, data)
                } else if cmd == CMD_CRAM {
                    frames_from(buf, next, id, data + buf.subrange(pos + 5, next))
                } else if len != 4 {
                    Err(DecodeError::FrameSizeMismatch)
                } else {
                    frames_from(buf, next, Some(be32(buf, pos + 5) as u32), data)
                }
            }
        }
    }
}

/// Number of bytes that carry `n` bits.
pub open spec fn bytes_for(n: int) -> int {
    n / 8 + if n % 8 == 0 { 0int } else { 1int }
}

/// Bit `j` of a byte, counting from the most significant.
pub open spec fn byte_bit(b: u8, j: int) -> bool {
    (b >> ((7 - j) as u8)) & 1u8 == 1u8
}

/// The first `n` bits carried by `data`.
pub open spec fn unpack(data: Seq<u8>, n: int) -> Seq<bool> {
    Seq::new(n as nat, |k: int| byte_bit(data[k / 8], k % 8))
}

/// The first device of the table with the idcode.
pub open spec fn is_first_device(devices: Seq<DeviceGeometry>, id: u32, d: int) -> bool {
    &&& 0 <= d < devices.len()
    &&& devices[d].idcode == id
    &&& forall|j: int| 0 <= j < d ==> devices[j].idcode != id
}

/// No device of the table has the idcode.
pub open spec fn no_device(devices: Seq<DeviceGeometry>, id: u32) -> bool {
    forall|j: int| 0 <= j < devices.len() ==> devices[j].idcode != id
}

/// The chip holds the memory of device `d`, unpacked from `data`, and no tiles.
pub open spec fn decoded_chip(c: Chip, d: DeviceGeometry, data: Seq<u8>) -> bool {
    &&& c.family@ == d.family@
    &&& c.device@ == d.name@
    &&& c.idcode == d.idcode
    &&& c.frames == d.frames
    &&& c.bits_per_frame == d.bits_per_frame
    &&& c.cram@ == unpack(data, d.total_bits())
    &&& c.tiles@.len() == 0
}

fn read_be32(buf: &Vec<u8>, p: usize) -> (r: u32)
    requires
        p + 4 <= buf@.len(),
    ensures
        r as int == be32(buf@, p as int),
{
    let n = buf.len();
    assert(p + 4 <= n);
    let b0 = buf[p] as u32;
    let b1 = buf[p + 1] as u32;
    let b2 = buf[p + 2] as u32;
    let b3 = buf[p + 3] as u32;
    b0 * 0x1000000 + b1 * 0x10000 + b2 * 0x100 + b3
}

/// Walks the frames after the sync sequence.
fn read_frames(buf: &Vec<u8>) -> (r: Result<(Option<u32>, Vec<u8>), DecodeError>)
    requires
        buf@.len() >= 4,
    ensures
        match r {
            Ok((id, data)) => frames_from(buf@, 4, None, Seq::empty()) == Ok::<
                (Option<u32>, Seq<u8>),
                DecodeError,
            >((id, data@)),
            Err(e) => frames_from(buf@, 4, None, Seq::empty()) == Err::<
                (Option<u32>, Seq<u8>),
                DecodeError,
            >(e),
        },
{
    let mut pos: usize = 4;
    let mut id: Option<u32> = None;
    let mut data: Vec<u8> = Vec::new();
    while pos < buf.len()
        invariant
            4 <= pos <= buf@.len(),
            frames_from(buf@, 4, None, Seq::empty()) == frames_from(buf@, pos as int, id, data@),
        decreases buf@.len() - pos,
    {
        let cmd = buf[pos];
        if cmd != CMD_DEVICE_ID && cmd != CMD_CRAM && cmd != CMD_CONTROL && cmd != CMD_COMMIT {
            return Err(DecodeError::UnknownCommand(cmd));
        }
        if buf.len() - pos < 5 {
            return Err(DecodeError::FrameSizeMismatch);
        }
        let len = read_be32(buf, pos + 1) as usize;
        if len > buf.len() - pos - 5 {
            return Err(DecodeError::FrameSizeMismatch);
        }
        let next = pos + 5 + len;
        if cmd == CMD_COMMIT {
            return Ok((id, data));
        } else if cmd == CMD_CRAM {
            let ghost before = data@;
            let mut k: usize = pos + 5;
            while k < next
                invariant
                    pos + 5 <= k <= next <= buf@.len(),
                    data@ == before + buf@.subrange(pos + 5, k as int),
                decreases next - k,
            {
                data.push(buf[k]);
                k += 1;
                proof {
                    assert(buf@.subrange(pos + 5, k as int) =~= buf@.subrange(pos + 5, k - 1).push(
                        buf@[k - 1],
                    ));
                }
            }
        } else if cmd == CMD_DEVICE_ID {
            if len != 4 {
                return Err(DecodeError::FrameSizeMismatch);
            }
            id = Some(read_be32(buf, pos + 5));
        }
        pos = next;
    }
    Ok((id, data))
}

/// Index of the first device with the idcode.
fn find_device(devices: &Vec<DeviceGeometry>, id: u32) -> (r: Option<usize>)
    ensures
        r matches Some(d) ==> is_first_device(devices@, id, d as int),
        r is None ==> no_device(devices@, id),
{
    let mut i: usize = 0;
    while i < devices.len()
        invariant
            i <= devices@.len(),
            forall|j: int| 0 <= j < i ==> devices@[j].idcode != id,
        decreases devices@.len() - i,
    {
        if devices[i].idcode == id {
            return Some(i);
        }
        i += 1;
    }
    None
}

/// Decodes a bitstream for one of `devices` into a chip whose tiles are
/// not yet expanded.
pub fn decode(buf: &Vec<u8>, devices: &Vec<DeviceGeometry>) -> (r: Result<Chip, DecodeError>)
    requires
        forall|i: int| 0 <= i < devices@.len() ==> (#[trigger] devices@[i]).wf(),
    ensures
        !has_magic(buf@) ==> r == Err::<Chip, DecodeError>(DecodeError::MalformedHeader),
        has_magic(buf@) ==> match frames_from(buf@, 4, None, Seq::empty()) {
            Err(e) => r == Err::<Chip, DecodeError>(e),
            Ok((None, _)) => r == Err::<Chip, DecodeError>(DecodeError::MissingDeviceId),
            Ok((Some(id), data)) => {
                &&& no_device(devices@, id) ==> r == Err::<Chip, DecodeError>(
                    DecodeError::UnknownDevice(id),
                )
                &&& forall|d: int| is_first_device(devices@, id, d) ==> {
                    &&& data.len() != bytes_for(devices@[d].total_bits()) ==> r == Err::<
                        Chip,
                        DecodeError,
                    >(DecodeError::FrameSizeMismatch)
                    &&& data.len() == bytes_for(devices@[d].total_bits()) ==> (r matches Ok(c)
                        && decoded_chip(c, devices@[d], data))
                }
            },
        },
{
    if buf.len() < 4 || buf[0] != 0xFF || buf[1] != 0xFF || buf[2] != 0xBD || buf[3] != 0xB3 {
        return Err(DecodeError::MalformedHeader);
    }
    let (id, data) = match read_frames(buf) {
        Err(e) => return Err(e),
        Ok(x) => x,
    };
    let id = match id {
        None => return Err(DecodeError::MissingDeviceId),
        Some(id) => id,
    };
    let d = match find_device(devices, id) {
        None => return Err(DecodeError::UnknownDevice(id)),
        Some(d) => d,
    };
    let dev = &devices[d];
    assert(dev.wf());
    let total = dev.total_size();
    let nbytes = total / 8 + if total % 8 == 0 { 0 } else { 1 };
    if data.len() != nbytes {
        proof {
            assert forall|d2: int| is_first_device(devices@, id, d2) implies d2 == d by {
                if d2 < d {
                    assert(devices@[d2].idcode != id);
                }
                if d < d2 {
                    assert(devices@[d as int].idcode != id);
                }
            }
        }
        return Err(DecodeError::FrameSizeMismatch);
    }
    let mut cram: Vec<bool> = Vec::new();
    let mut k: usize = 0;
    while k < total
        invariant
            k <= total,
            total == dev.total_bits(),
            data@.len() == bytes_for(total as int),
            cram@ =~= unpack(data@, k as int),
        decreases total - k,
    {
        let byte = data[k / 8];
        let j = (k % 8) as u8;
        cram.push((byte >> (7 - j)) & 1 == 1);
        k += 1;
    }
    proof {
        assert forall|d2: int| is_first_device(devices@, id, d2) implies d2 == d by {
            if d2 < d {
                assert(devices@[d2].idcode != id);
            }
            if d < d2 {
                assert(devices@[d as int].idcode != id);
            }
        }
    }
    Ok(
        Chip {
            family: dev.family.clone(),
            device: dev.name.clone(),
            idcode: dev.idcode,
            frames: dev.frames,
            bits_per_frame: dev.bits_per_frame,
            cram,
            tiles: Vec::new(),
        },
    )
}

/// Decoding then expanding into tiles: when configuration memory unpacked
/// for device `d` is sliced into the tiles of its layout, the tiles together
/// hold exactly as many bits as the device's configuration memory.
pub proof fn lemma_decode_expand_covers_memory(d: DeviceGeometry, data: Seq<u8>, tiles: Seq<Tile>)
    requires
        d.wf(),
        tiles.len() == d.tiles@.len(),
        forall|i: int| 0 <= i < tiles.len() ==> expands_to(
            unpack(data, d.total_bits()),
            d.bits_per_frame as int,
            d.tiles@[i],
            #[trigger] tiles[i],
        ),
    ensures
        tile_bit_total(tiles, tiles.len() as int) == unpack(data, d.total_bits()).len(),
        unpack(data, d.total_bits()).len() == d.total_bits(),
{
    assert(d.total_bits() >= 0) by (nonlinear_arith)
        requires
            d.frames >= 0,
            d.bits_per_frame >= 0,
    ;
    assert forall|i: int| 0 <= i < tiles.len() implies (#[trigger] tiles[i]).cram@.len()
        == crate::geometry::tile_size(d.tiles@[i]) by {
        let g = d.tiles@[i];
        assert(g.frames * g.bits >= 0) by (nonlinear_arith)
            requires
                g.frames >= 0,
                g.bits >= 0,
        ;
    }
    lemma_totals(d.tiles@, tiles, tiles.len() as int);
}

} // verus!
