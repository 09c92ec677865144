use vstd::prelude::*;
use crate::error::{DecodeError, Feature};
use crate::read_buf::le_u32;
use crate::write_buf::copy_match;

verus! {

/// Capacity of the decoder's staging buffer.
pub const INPUT_BUFFER_SIZE: usize = 4194304;

/// Capacity of the decoder's back-reference window.
pub const WINDOW_SIZE: usize = 65536;

/// Magic number that opens every frame, as a little-endian `u32`.
pub const FRAME_MAGIC: u32 = 0x184D2204;

/// Minimum length of a match.
pub const BASE_MATCH_LEN: usize = 4;

/// Whether bit `i` of `n` is set.
pub open spec fn bit_set(n: u8, i: u8) -> bool {
    n & (1u8 << i) != 0
}

/// Flags and sizes read from a frame descriptor.
#[derive(Debug, Clone, Copy, PartialEq, Eq, Structural)]
pub struct FrameHeaderInfo {
    pub block_indep_flag: bool,
    pub block_checksum_flag: bool,
    pub content_size_flag: bool,
    pub content_checksum_flag: bool,
    pub dict_id_flag: bool,
    pub block_max_size: u8,
    pub header_size: usize,
}

/// What the descriptor bytes `flg` and `bd` say about the frame.
pub open spec fn header_of(flg: u8, bd: u8) -> FrameHeaderInfo {
    FrameHeaderInfo {
        block_indep_flag: bit_set(flg, 5),
        block_checksum_flag: bit_set(flg, 4),
        content_size_flag: bit_set(flg, 3),
        content_checksum_flag: bit_set(flg, 2),
        dict_id_flag: bit_set(flg, 0),
        block_max_size: (bd & 0x70u8) >> 4u8,
        header_size: (7 + (if bit_set(flg, 3) {
            8int
        } else {
            0
        }) + (if bit_set(flg, 0) {
            4int
        } else {
            0
        })) as usize,
    }
}

/// Where the decoder stands within a frame.
#[derive(Debug, Clone, Copy, PartialEq, Eq, Structural)]
pub enum Phase {
    /// Waiting for the four magic bytes.
    Magic,
    /// Waiting for the FLG and BD bytes.
    Descriptor,
    /// Waiting for the optional content size and the header checksum.
    HeaderRest,
    /// Waiting for a four-byte block header.
    BlockHeader,
    /// Waiting for the payload of a block.
    Block { raw: bool, size: usize },
    /// Waiting for the checksum that follows a block.
    BlockChecksum,
    /// Waiting for the content checksum after the last block.
    ContentChecksum,
    /// The frame is complete; nothing may follow it.
    Trailing,
    /// The frame and the check for trailing bytes are done.
    Done,
}

/// Number of bytes the decoder takes in `phase` (at most this many in `Trailing`).
pub open spec fn wanted(phase: Phase, hdr: FrameHeaderInfo) -> nat {
    match phase {
        Phase::Magic => 4,
        Phase::Descriptor => 2,
        Phase::HeaderRest => if hdr.content_size_flag {
            9
        } else {
            1
        },
        Phase::BlockHeader => 4,
        Phase::Block { raw, size } => size as nat,
        Phase::BlockChecksum => 4,
        Phase::ContentChecksum => 4,
        Phase::Trailing => 4,
        Phase::Done => 0,
    }
}

/// Value and length of the `0xFF`-chained extension of a length whose
/// running total is `acc`; `None` when the chain runs off the end of `s`.
pub open spec fn ext_len(s: Seq<u8>, acc: nat) -> Option<(nat, nat)>
    decreases s.len(),
{
    if s.len() == 0 {
        None
    } else if s[0] == 255 {
        match ext_len(s.drop_first(), acc + 255) {
            Some(p) => Some((p.0, p.1 + 1)),
            None => None,
        }
    } else {
        Some((acc + s[0] as nat, 1))
    }
}

/// A length whose token nibble is `base`, read from the front of `s`:
/// its value and how many bytes of `s` it takes.
pub open spec fn var_len(s: Seq<u8>, base: nat) -> Option<(nat, nat)> {
    if base != 15 {
        Some((base, 0))
    } else {
        ext_len(s, 15)
    }
}

/// One sequence decoded from the front of the block bytes `blk`, with `out`
/// the output so far: the bytes left, the output after it, and whether it
/// was the last sequence of the block. `None` when the block is corrupt.
pub open spec fn decode_sequence(blk: Seq<u8>, out: Seq<u8>) -> Option<(Seq<u8>, Seq<u8>, bool)> {
    if blk.len() == 0 {
        None
    } else {
        let tok = blk[0];
        let r = blk.drop_first();
        match var_len(r, (tok / 16) as nat) {
            None => None,
            Some((l, k)) => {
                let r2 = r.skip(k as int);
                if l > r2.len() {
                    None
                } else {
                    let out1 = out + r2.take(l as int);
                    let r3 = r2.skip(l as int);
                    if r3.len() == 0 {
                        Some((r3, out1, true))
                    } else if r3.len() < 2 {
                        None
                    } else {
                        let off = r3[0] as nat + 256 * (r3[1] as nat);
                        if off == 0 {
                            None
                        } else {
                            let r4 = r3.skip(2);
                            match var_len(r4, (tok % 16) as nat) {
                                None => None,
                                Some((m, k2)) => Some(
                                    (r4.skip(k2 as int), copy_match(out1, off, m + 4), false),
                                ),
                            }
                        }
                    }
                }
            }
        }
    }
}

/// The output after a sequence that turns out to be corrupt: its literals
/// are emitted when they were read in full before the fault was found.
pub open spec fn emitted_before_fault(blk: Seq<u8>, out: Seq<u8>) -> Seq<u8> {
    if blk.len() == 0 {
        out
    } else {
        let r = blk.drop_first();
        match var_len(r, (blk[0] / 16) as nat) {
            None => out,
            Some((l, k)) => {
                let r2 = r.skip(k as int);
                if l > r2.len() {
                    out
                } else {
                    out + r2.take(l as int)
                }
            },
        }
    }
}

/// Decoding a sequence never takes back output: what was emitted before
/// stays a prefix, whether the sequence decodes or is found corrupt.
pub proof fn lemma_sequence_extends(blk: Seq<u8>, out: Seq<u8>)
    ensures
        out.is_prefix_of(emitted_before_fault(blk, out)),
        match decode_sequence(blk, out) {
            Some((rest, o, last)) => out.is_prefix_of(o),
            None => true,
        },
{
    if blk.len() > 0 {
        let r = blk.drop_first();
        match var_len(r, (blk[0] / 16) as nat) {
            None => {},
            Some((l, k)) => {
                let r2 = r.skip(k as int);
                if l <= r2.len() {
                    let out1 = out + r2.take(l as int);
                    assert(out1.subrange(0, out.len() as int) =~= out);
                    let r3 = r2.skip(l as int);
                    if r3.len() >= 2 {
                        let off = r3[0] as nat + 256 * (r3[1] as nat);
                        let r4 = r3.skip(2);
                        match var_len(r4, (blk[0] % 16) as nat) {
                            None => {},
                            Some((m, k2)) => {
                                crate::write_buf::lemma_copy_match_len(out1, off, m + 4);
                                let o = copy_match(out1, off, m + 4);
                                assert(o.subrange(0, out.len() as int) =~= out1.subrange(
                                    0,
                                    out.len() as int,
                                ));
                            },
                        }
                    }
                }
            },
        }
    }
}

/// The output `out` extended by the compressed block `blk`; `None` when the
/// block is corrupt.
pub open spec fn decode_block(blk: Seq<u8>, out: Seq<u8>) -> Option<Seq<u8>>
    decreases blk.len(),
{
    match decode_sequence(blk, out) {
        None => None,
        Some((rest, o, last)) => if last {
            Some(o)
        } else if rest.len() < blk.len() {
            decode_block(rest, o)
        } else {
            None
        },
    }
}

/// Little-endian value of the first four bytes of `s`.
pub open spec fn le_u32_of(s: Seq<u8>) -> nat {
    le_u32(s[0], s[1], s[2], s[3])
}

/// The phase after a block in a frame described by `hdr`.
pub open spec fn after_block(hdr: FrameHeaderInfo) -> Phase {
    if hdr.block_checksum_flag {
        Phase::BlockChecksum
    } else {
        Phase::BlockHeader
    }
}

/// The decoder in `phase`, with frame description `hdr` and output `out`,
/// taking the bytes `data`: the next phase, description and output.
pub open spec fn step(phase: Phase, hdr: FrameHeaderInfo, out: Seq<u8>, data: Seq<u8>) -> Result<
    (Phase, FrameHeaderInfo, Seq<u8>),
    DecodeError,
> {
    match phase {
        Phase::Magic => if le_u32_of(data) != FRAME_MAGIC {
            Err(DecodeError::WrongMagic)
        } else {
            Ok((Phase::Descriptor, hdr, out))
        },
        Phase::Descriptor => if data[0] >> 6u8 != 1 {
            Err(DecodeError::WrongVersion)
        } else if bit_set(data[0], 0) {
            Err(DecodeError::UnsupportedFeature(Feature::DictId))
        } else {
            Ok((Phase::HeaderRest, header_of(data[0], data[1]), out))
        },
        Phase::HeaderRest => Ok((Phase::BlockHeader, hdr, out)),
        Phase::BlockHeader => {
            let bh = le_u32_of(data) as u32;
            let size = (bh & 0x7fff_ffffu32) as usize;
            if bh == 0 {
                Ok(
                    (
                        if hdr.content_checksum_flag {
                            Phase::ContentChecksum
                        } else {
                            Phase::Trailing
                        },
                        hdr,
                        out,
                    ),
                )
            } else if size >= INPUT_BUFFER_SIZE {
                Err(DecodeError::InvalidBlockSize(size))
            } else {
                Ok((Phase::Block { raw: bh & 0x8000_0000u32 != 0, size }, hdr, out))
            }
        },
        Phase::Block { raw, size } => if raw {
            Ok((after_block(hdr), hdr, out + data))
        } else {
            match decode_block(data, out) {
                None => Err(DecodeError::CorruptedData),
                Some(o) => Ok((after_block(hdr), hdr, o)),
            }
        },
        Phase::BlockChecksum => Ok((Phase::BlockHeader, hdr, out)),
        Phase::ContentChecksum => Ok((Phase::Trailing, hdr, out)),
        Phase::Trailing => if data.len() > 0 {
            Err(DecodeError::UnknownDataAtEnd)
        } else {
            Ok((Phase::Done, hdr, out))
        },
        Phase::Done => Ok((Phase::Done, hdr, out)),
    }
}

/// Measure that falls with every step of `run`.
pub open spec fn run_measure(phase: Phase, hdr: FrameHeaderInfo, input: Seq<u8>) -> nat {
    2 * input.len() + if wanted(phase, hdr) == 0 {
        1nat
    } else {
        0
    }
}

/// Decoding the rest of a frame, `input`, from the given state: the bytes
/// emitted since the window's zero prefix, or the first error.
pub open spec fn run(phase: Phase, hdr: FrameHeaderInfo, out: Seq<u8>, input: Seq<u8>) -> Result<
    Seq<u8>,
    DecodeError,
>
    decreases run_measure(phase, hdr, input),
{
    match phase {
        Phase::Done => Ok(out.skip(WINDOW_SIZE as int)),
        Phase::Trailing => if input.len() > 0 {
            Err(DecodeError::UnknownDataAtEnd)
        } else {
            Ok(out.skip(WINDOW_SIZE as int))
        },
        _ => {
            let w = wanted(phase, hdr);
            if input.len() < w {
                Err(DecodeError::ReadIoError)
            } else {
                match step(phase, hdr, out, input.take(w as int)) {
                    Err(e) => Err(e),
                    Ok((p, h, o)) => if run_measure(p, h, input.skip(w as int)) < run_measure(
                        phase,
                        hdr,
                        input,
                    ) {
                        run(p, h, o, input.skip(w as int))
                    } else {
                        Err(DecodeError::ReadIoError)
                    },
                }
            }
        },
    }
}

/// Description of a frame before its descriptor has been read.
pub open spec fn blank_header() -> FrameHeaderInfo {
    FrameHeaderInfo {
        block_indep_flag: false,
        block_checksum_flag: false,
        content_size_flag: false,
        content_checksum_flag: false,
        dict_id_flag: false,
        block_max_size: 0,
        header_size: 0,
    }
}

/// The window's content before anything is emitted.
pub open spec fn zero_window() -> Seq<u8> {
    Seq::new(WINDOW_SIZE as nat, |i: int| 0u8)
}

/// The bytes that the frame `input` decodes to, or the first error.
pub open spec fn decode_frame(input: Seq<u8>) -> Result<Seq<u8>, DecodeError> {
    run(Phase::Magic, blank_header(), zero_window(), input)
}

} // verus!
