use vstd::prelude::*;
use crate::error::{DecodeError, Feature};
use crate::format::{
    BASE_MATCH_LEN, FRAME_MAGIC, FrameHeaderInfo, INPUT_BUFFER_SIZE, Phase, WINDOW_SIZE, bit_set,
    blank_header, decode_block, decode_frame, decode_sequence, emitted_before_fault, ext_len, run,
    run_measure, step,
    var_len, wanted, zero_window,
};
use crate::read_buf::{Lz4ReadBuf, round_up_pow2, pow2_from};
use crate::write_buf::Lz4WriteBuf;

verus! {

/// Whether bit `i` of `n` is set.
pub fn is_bit_set(n: u8, i: u8) -> (r: bool)
    requires
        i < 8,
    ensures
        r == bit_set(n, i),
{
    n & (1u8 << i) != 0
}

/// Streaming decoder for one LZ4 frame at a time.
///
/// The caller asks `wanted()` how many input bytes the decoder takes next,
/// hands them to `feed`, and passes what `take_output` returns on to its sink.
pub struct LzDecoder {
    input_buffer: Lz4ReadBuf,
    output: Lz4WriteBuf,
    phase: Phase,
    header: FrameHeaderInfo,
}

impl LzDecoder {
    /// Where the decoder stands within the frame.
    pub closed spec fn phase_view(&self) -> Phase {
        self.phase
    }

    /// What the frame descriptor said, once it has been read.
    pub closed spec fn header_view(&self) -> FrameHeaderInfo {
        self.header
    }

    /// The window's zero prefix followed by everything emitted for this frame.
    pub closed spec fn history(&self) -> Seq<u8> {
        self.output.history()
    }

    /// Length of the prefix of `history()` already handed over.
    pub closed spec fn taken(&self) -> nat {
        self.output.taken()
    }

    /// Buffers are well formed and of the decoder's sizes.
    pub closed spec fn wf_core(&self) -> bool {
        &&& self.input_buffer.wf()
        &&& self.input_buffer.cap() == INPUT_BUFFER_SIZE
        &&& self.output.wf()
        &&& self.output.cap() == WINDOW_SIZE
        &&& match self.phase {
            Phase::Block { raw, size } => size < INPUT_BUFFER_SIZE,
            _ => true,
        }
    }

    /// Well formed, with no input staged between calls.
    pub closed spec fn wf(&self) -> bool {
        &&& self.wf_core()
        &&& self.input_buffer@.len() == 0
        &&& self.input_buffer.head() == 0
    }

    /// Create a decoder ready for a frame.
    pub fn new() -> (r: Self)
        ensures
            r.wf(),
            r.phase_view() == Phase::Magic,
            r.header_view() == blank_header(),
            r.history() == zero_window(),
            r.taken() == WINDOW_SIZE,
    {
        proof {
            reveal_with_fuel(pow2_from, 24);
            assert(round_up_pow2(INPUT_BUFFER_SIZE as nat) == INPUT_BUFFER_SIZE);
            assert(round_up_pow2(WINDOW_SIZE as nat) == WINDOW_SIZE);
        }
        let input_buffer = Lz4ReadBuf::with_capacity(INPUT_BUFFER_SIZE);
        let output = Lz4WriteBuf::with_capacity(WINDOW_SIZE);
        LzDecoder { input_buffer, output, phase: Phase::Magic, header: Self::blank() }
    }

    /// Read a length whose token nibble is `base` from the staged input,
    /// following the chain of `0xFF` bytes when `base` is 15.
    fn get_var_int_from_buf(&mut self, base: u8) -> (r: Result<usize, DecodeError>)
        requires
            old(self).wf_core(),
            base < 16,
        ensures
            final(self).wf_core(),
            final(self).output == old(self).output,
            final(self).phase == old(self).phase,
            final(self).header == old(self).header,
            match var_len(old(self).input_buffer@, base as nat) {
                None => r == Err::<usize, DecodeError>(DecodeError::CorruptedData),
                Some((v, k)) => r == Ok::<usize, DecodeError>(v as usize) && v < 0x4000_0000
                    && k <= old(self).input_buffer@.len() && final(self).input_buffer@ == old(
                    self,
                ).input_buffer@.skip(k as int),
            },
    {
        let mut n: usize = base as usize;
        if base != 15 {
            assert(old(self).input_buffer@.skip(0) =~= old(self).input_buffer@);
            return Ok(n);
        }
        let ghost orig = self.input_buffer@;
        let mut used: usize = 0;
        proof {
            self.input_buffer.lemma_shape();
            assert(orig.skip(0) =~= orig);
        }
        loop
            invariant
                self.wf_core(),
                self.output == old(self).output,
                self.phase == old(self).phase,
                self.header == old(self).header,
                orig == old(self).input_buffer@,
                base == 15,
                orig.len() <= INPUT_BUFFER_SIZE,
                used <= orig.len(),
                self.input_buffer@ == orig.skip(used as int),
                n <= 15 + 255 * used,
                ext_len(orig, 15) == match ext_len(self.input_buffer@, n as nat) {
                    Some(p) => Some((p.0, (p.1 + used) as nat)),
                    None => None,
                },
            decreases orig.len() - used,
        {
            let ghost cur = self.input_buffer@;
            match self.input_buffer.pop_byte() {
                None => {
                    assert(ext_len(cur, n as nat) is None);
                    assert(var_len(orig, base as nat) is None);
                    return Err(DecodeError::CorruptedData);
                },
                Some(b) => {
                    assert(cur.drop_first() =~= orig.skip(used + 1));
                    let ghost n0 = n;
                    n = n + b as usize;
                    used = used + 1;
                    if b != 255 {
                        assert(ext_len(cur, n0 as nat) == Some((n as nat, 1nat)));
                        assert(ext_len(orig, 15) == Some((n as nat, used as nat)));
                        assert(var_len(orig, base as nat) == Some((n as nat, used as nat)));
                        return Ok(n);
                    }
                },
            }
        }
    }

    /// Decode one sequence from the staged block into the window. Returns
    /// whether it was the block's last sequence.
    fn process_sequence(&mut self) -> (r: Result<bool, DecodeError>)
        requires
            old(self).wf_core(),
        ensures
            final(self).wf_core(),
            final(self).phase == old(self).phase,
            final(self).header == old(self).header,
            final(self).taken() == old(self).taken(),
            match decode_sequence(old(self).input_buffer@, old(self).history()) {
                None => r == Err::<bool, DecodeError>(DecodeError::CorruptedData)
                    && final(self).history() == emitted_before_fault(
                    old(self).input_buffer@,
                    old(self).history(),
                ),
                Some((rest, o, last)) => r == Ok::<bool, DecodeError>(last)
                    && final(self).input_buffer@ == rest && final(self).history() == o,
            },
    {
        let tok = match self.input_buffer.pop_byte() {
            None => {
                return Err(DecodeError::CorruptedData);
            },
            Some(t) => t,
        };
        let lit_len = match self.get_var_int_from_buf(tok / 16) {
            Err(e) => {
                return Err(e);
            },
            Ok(l) => l,
        };
        let ghost r2 = self.input_buffer@;
        if lit_len > self.input_buffer.len() {
            return Err(DecodeError::CorruptedData);
        }
        let head = self.input_buffer.head_index();
        proof {
            self.input_buffer.lemma_shape();
        }
        let st = self.input_buffer.storage();
        assert(st@.subrange(head as int, head + lit_len) =~= r2.take(lit_len as int));
        self.output.write_from(st, head, lit_len);
        self.input_buffer.consume(lit_len);
        assert(self.input_buffer@ =~= r2.skip(lit_len as int));
        if self.input_buffer.len() == 0 {
            return Ok(true);
        }
        if self.input_buffer.len() < 2 {
            return Err(DecodeError::CorruptedData);
        }
        let ghost r3 = self.input_buffer@;
        let offset = self.input_buffer.byte_at(0) as usize + 256 * self.input_buffer.byte_at(1) as usize;
        if offset == 0 {
            return Err(DecodeError::CorruptedData);
        }
        self.input_buffer.consume(2);
        assert(self.input_buffer@ =~= r3.skip(2));
        let match_len = match self.get_var_int_from_buf(tok % 16) {
            Err(e) => {
                return Err(e);
            },
            Ok(m) => m + BASE_MATCH_LEN,
        };
        self.output.copy_from_offset(offset, match_len);
        Ok(false)
    }

    /// Decode the whole staged compressed block into the window.
    fn decode_compressed(&mut self) -> (r: Result<(), DecodeError>)
        requires
            old(self).wf_core(),
        ensures
            final(self).wf_core(),
            final(self).phase == old(self).phase,
            final(self).header == old(self).header,
            final(self).taken() == old(self).taken(),
            old(self).history().is_prefix_of(final(self).history()),
            match decode_block(old(self).input_buffer@, old(self).history()) {
                None => r == Err::<(), DecodeError>(DecodeError::CorruptedData),
                Some(o) => r is Ok && final(self).input_buffer@.len() == 0
                    && final(self).history() == o,
            },
    {
        let ghost goal = decode_block(self.input_buffer@, self.history());
        loop
            invariant
                self.wf_core(),
                self.phase == old(self).phase,
                self.header == old(self).header,
                self.taken() == old(self).taken(),
                goal == decode_block(old(self).input_buffer@, old(self).history()),
                decode_block(self.input_buffer@, self.history()) == goal,
                old(self).history().is_prefix_of(self.history()),
            decreases self.input_buffer@.len(),
        {
            let ghost h = self.history();
            proof {
                crate::format::lemma_sequence_extends(self.input_buffer@, h);
            }
            let before = self.input_buffer.len();
            let res = self.process_sequence();
            proof {
                let h0 = old(self).history();
                assert(h0 =~= h.subrange(0, h0.len() as int));
                assert(h.is_prefix_of(self.history()));
                assert(h0 =~= self.history().subrange(0, h0.len() as int));
            }
            match res {
                Err(e) => {
                    return Err(e);
                },
                Ok(last) => {
                    if last {
                        return Ok(());
                    }
                    if self.input_buffer.len() >= before {
                        return Err(DecodeError::CorruptedData);
                    }
                },
            }
        }
    }

    /// Stage `amt` bytes of `data` from `start` into the empty input buffer.
    fn stage(&mut self, data: &[u8], start: usize, amt: usize)
        requires
            old(self).wf(),
            start + amt <= data@.len(),
            amt < INPUT_BUFFER_SIZE,
        ensures
            final(self).wf_core(),
            final(self).output == old(self).output,
            final(self).phase == old(self).phase,
            final(self).header == old(self).header,
            final(self).input_buffer@ == data@.subrange(start as int, start + amt),
    {
        proof {
            self.input_buffer.lemma_shape();
        }
        self.input_buffer.extend_read(data, start, amt);
        assert(self.input_buffer@ =~= data@.subrange(start as int, start + amt));
    }

    /// Drop whatever is staged, leaving the input buffer empty and compacted.
    fn discard_staged(&mut self)
        requires
            old(self).wf_core(),
        ensures
            final(self).wf(),
            final(self).output == old(self).output,
            final(self).phase == old(self).phase,
            final(self).header == old(self).header,
    {
        let n = self.input_buffer.len();
        self.input_buffer.consume(n);
        self.input_buffer.compact();
    }

    /// Take the `amt` bytes of `data` from `start` in the current phase.
    fn feed_range(&mut self, data: &[u8], start: usize, amt: usize) -> (r: Result<(), DecodeError>)
        requires
            old(self).wf(),
            old(self).phase != Phase::Done,
            start + amt <= data@.len(),
            amt == wanted(old(self).phase, old(self).header) || (old(self).phase == Phase::Trailing
                && amt <= 4),
        ensures
            final(self).wf(),
            final(self).taken() == old(self).taken(),
            match step(
                old(self).phase,
                old(self).header,
                old(self).history(),
                data@.subrange(start as int, start + amt),
            ) {
                Ok((p, h, o)) => r is Ok && final(self).phase == p && final(self).header == h
                    && final(self).history() == o,
                Err(e) => r == Err::<(), DecodeError>(e),
            },
            r is Err ==> old(self).history().is_prefix_of(final(self).history()),
            r is Err && !(old(self).phase is Block) ==> final(self).history() == old(self).history(),
    {
        let ghost d = data@.subrange(start as int, start + amt);
        match self.phase {
            Phase::Magic => {
                self.stage(data, start, amt);
                let m = self.input_buffer.get_u32(0);
                self.discard_staged();
                if m != FRAME_MAGIC {
                    return Err(DecodeError::WrongMagic);
                }
                self.phase = Phase::Descriptor;
                Ok(())
            },
            Phase::Descriptor => {
                self.stage(data, start, amt);
                let flg = self.input_buffer.byte_at(0);
                let bd = self.input_buffer.byte_at(1);
                self.discard_staged();
                if flg >> 6u8 != 1 {
                    return Err(DecodeError::WrongVersion);
                }
                if is_bit_set(flg, 0) {
                    return Err(DecodeError::UnsupportedFeature(Feature::DictId));
                }
                let content_size_flag = is_bit_set(flg, 3);
                let dict_id_flag = is_bit_set(flg, 0);
                let header_size: usize = 7 + (if content_size_flag {
                    8
                } else {
                    0
                }) + (if dict_id_flag {
                    4
                } else {
                    0
                });
                self.header = FrameHeaderInfo {
                    block_indep_flag: is_bit_set(flg, 5),
                    block_checksum_flag: is_bit_set(flg, 4),
                    content_size_flag,
                    content_checksum_flag: is_bit_set(flg, 2),
                    dict_id_flag,
                    block_max_size: (bd & 0x70u8) >> 4u8,
                    header_size,
                };
                self.phase = Phase::HeaderRest;
                Ok(())
            },
            Phase::HeaderRest => {
                self.stage(data, start, amt);
                self.discard_staged();
                self.phase = Phase::BlockHeader;
                Ok(())
            },
            Phase::BlockHeader => {
                self.stage(data, start, amt);
                let bh = self.input_buffer.get_u32(0);
                self.discard_staged();
                if bh == 0 {
                    self.phase = if self.header.content_checksum_flag {
                        Phase::ContentChecksum
                    } else {
                        Phase::Trailing
                    };
                    return Ok(());
                }
                let size = (bh & 0x7fff_ffffu32) as usize;
                if size >= self.input_buffer.capacity() {
                    return Err(DecodeError::InvalidBlockSize(size));
                }
                self.phase = Phase::Block { raw: bh & 0x8000_0000u32 != 0, size };
                Ok(())
            },
            Phase::Block { raw, size } => {
                self.stage(data, start, amt);
                if raw {
                    let n = self.input_buffer.len();
                    let head = self.input_buffer.head_index();
                    proof {
                        self.input_buffer.lemma_shape();
                    }
                    let st = self.input_buffer.storage();
                    assert(st@.subrange(head as int, head + n) =~= d);
                    self.output.write_from(st, head, n);
                } else {
                    let res = self.decode_compressed();
                    if res.is_err() {
                        self.discard_staged();
                        return Err(DecodeError::CorruptedData);
                    }
                }
                self.discard_staged();
                self.phase = if self.header.block_checksum_flag {
                    Phase::BlockChecksum
                } else {
                    Phase::BlockHeader
                };
                Ok(())
            },
            Phase::BlockChecksum => {
                self.stage(data, start, amt);
                self.discard_staged();
                self.phase = Phase::BlockHeader;
                Ok(())
            },
            Phase::ContentChecksum => {
                self.stage(data, start, amt);
                self.discard_staged();
                self.phase = Phase::Trailing;
                Ok(())
            },
            Phase::Trailing => {
                if amt > 0 {
                    return Err(DecodeError::UnknownDataAtEnd);
                }
                self.phase = Phase::Done;
                Ok(())
            },
            Phase::Done => Ok(()),
        }
    }

    /// Number of input bytes the decoder takes next. After the frame's end it
    /// takes at most this many, to see whether anything follows.
    pub fn wanted(&self) -> (r: usize)
        requires
            self.wf(),
        ensures
            r == wanted(self.phase_view(), self.header_view()),
    {
        match self.phase {
            Phase::Magic => 4,
            Phase::Descriptor => 2,
            Phase::HeaderRest => if self.header.content_size_flag {
                9
            } else {
                1
            },
            Phase::BlockHeader => 4,
            Phase::Block { raw, size } => size,
            Phase::BlockChecksum => 4,
            Phase::ContentChecksum => 4,
            Phase::Trailing => 4,
            Phase::Done => 0,
        }
    }

    /// Whether the frame is complete and nothing followed it.
    pub fn is_finished(&self) -> (r: bool)
        ensures
            r == (self.phase_view() == Phase::Done),
    {
        self.phase == Phase::Done
    }

    /// Whether the frame's last block has been read, so that only the check
    /// for trailing bytes is left.
    pub fn is_at_end(&self) -> (r: bool)
        ensures
            r == (self.phase_view() == Phase::Trailing),
    {
        self.phase == Phase::Trailing
    }

    /// What the frame descriptor said (all clear before it has been read).
    pub fn header(&self) -> (r: FrameHeaderInfo)
        ensures
            r == self.header_view(),
    {
        self.header
    }

    /// Take the input bytes `data` in the current phase: exactly `wanted()`
    /// of them, or after the frame's end at most that many. On success the
    /// decoder moves to the next phase and queues any bytes it emitted.
    pub fn feed(&mut self, data: &[u8]) -> (r: Result<(), DecodeError>)
        requires
            old(self).wf(),
            old(self).phase_view() != Phase::Done,
            data@.len() == wanted(old(self).phase_view(), old(self).header_view())
                || (old(self).phase_view() == Phase::Trailing && data@.len() <= 4),
        ensures
            final(self).wf(),
            final(self).taken() == old(self).taken(),
            match step(old(self).phase_view(), old(self).header_view(), old(self).history(), data@) {
                Ok((p, h, o)) => r is Ok && final(self).phase_view() == p
                    && final(self).header_view() == h && final(self).history() == o,
                Err(e) => r == Err::<(), DecodeError>(e),
            },
            r is Err ==> old(self).history().is_prefix_of(final(self).history()),
            r is Err && !(old(self).phase_view() is Block)
                ==> final(self).history() == old(self).history(),
    {
        let r = self.feed_range(data, 0, data.len());
        assert(data@.subrange(0, data@.len() as int) =~= data@);
        r
    }

    /// Hand over the bytes emitted since the last call.
    pub fn take_output(&mut self) -> (r: Vec<u8>)
        requires
            old(self).wf(),
        ensures
            final(self).wf(),
            r@ == old(self).history().subrange(
                old(self).taken() as int,
                old(self).history().len() as int,
            ),
            final(self).taken() == final(self).history().len(),
            final(self).history() == old(self).history(),
            final(self).phase_view() == old(self).phase_view(),
            final(self).header_view() == old(self).header_view(),
    {
        proof {
            self.output.lemma_shape();
        }
        self.output.take_output()
    }

    /// Get ready for a new frame: a fresh window and nothing read yet.
    pub fn start_frame(&mut self)
        requires
            old(self).wf(),
        ensures
            final(self).wf(),
            final(self).phase_view() == Phase::Magic,
            final(self).header_view() == blank_header(),
            final(self).history() == zero_window(),
            final(self).taken() == WINDOW_SIZE,
    {
        proof {
            reveal_with_fuel(pow2_from, 24);
            assert(round_up_pow2(WINDOW_SIZE as nat) == WINDOW_SIZE);
        }
        self.output = Lz4WriteBuf::with_capacity(WINDOW_SIZE);
        self.phase = Phase::Magic;
        self.header = Self::blank();
    }

    /// Decode the complete frame `input`, which must hold nothing after the
    /// frame's end, and return the decoded bytes.
    pub fn decode(&mut self, input: &[u8]) -> (r: Result<Vec<u8>, DecodeError>)
        requires
            old(self).wf(),
        ensures
            final(self).wf(),
            match r {
                Ok(v) => decode_frame(input@) == Ok::<Seq<u8>, DecodeError>(v@),
                Err(e) => decode_frame(input@) == Err::<Seq<u8>, DecodeError>(e),
            },
    {
        self.start_frame();
        let mut pos: usize = 0;
        let len = input.len();
        assert(input@.skip(0) =~= input@);
        loop
            invariant
                self.wf(),
                len == input@.len(),
                pos <= len,
                self.phase_view() != Phase::Done,
                self.taken() == WINDOW_SIZE,
                run(self.phase_view(), self.header_view(), self.history(), input@.skip(pos as int))
                    == decode_frame(input@),
            decreases run_measure(self.phase_view(), self.header_view(), input@.skip(pos as int)),
        {
            let ghost rest = input@.skip(pos as int);
            if self.is_at_end() {
                let n: usize = if len - pos < 4 {
                    len - pos
                } else {
                    4
                };
                let res = self.feed_range(input, pos, n);
                match res {
                    Err(e) => {
                        return Err(e);
                    },
                    Ok(()) => {
                        proof {
                            self.output.lemma_shape();
                        }
                        let out = self.take_output();
                        return Ok(out);
                    },
                }
            }
            let w = self.wanted();
            if len - pos < w {
                return Err(DecodeError::ReadIoError);
            }
            let res = self.feed_range(input, pos, w);
            assert(input@.subrange(pos as int, pos + w) =~= rest.take(w as int));
            match res {
                Err(e) => {
                    return Err(e);
                },
                Ok(()) => {},
            }
            pos = pos + w;
            assert(input@.skip(pos as int) =~= rest.skip(w as int));
        }
    }

    fn blank() -> (r: FrameHeaderInfo)
        ensures
            r == blank_header(),
    {
        FrameHeaderInfo {
            block_indep_flag: false,
            block_checksum_flag: false,
            content_size_flag: false,
            content_checksum_flag: false,
            dict_id_flag: false,
            block_max_size: 0,
            header_size: 0,
        }
    }
}

} // verus!
