use vstd::prelude::*;
use crate::error::{DecodeError, Feature};
use crate::format::{
    FRAME_MAGIC, FrameHeaderInfo, INPUT_BUFFER_SIZE, Phase, WINDOW_SIZE, bit_set, blank_header,
    decode_block, decode_frame, decode_sequence, header_of, le_u32_of, run, run_measure, step, var_len,
    wanted,
    zero_window,
};
use crate::write_buf::copy_match;

verus! {

/// The four bytes that open every frame.
pub open spec fn magic_bytes() -> Seq<u8> {
    seq![0x04u8, 0x22u8, 0x4Du8, 0x18u8]
}

/// The only four bytes whose little-endian value is the frame magic are the
/// magic bytes themselves.
pub proof fn lemma_magic_bytes(s: Seq<u8>)
    requires
        s.len() >= 4,
    ensures
        (le_u32_of(s) == FRAME_MAGIC) == (s.take(4) == magic_bytes()),
{
    if s.take(4) == magic_bytes() {
        assert(s[0] == s.take(4)[0] && s[1] == s.take(4)[1] && s[2] == s.take(4)[2] && s[3]
            == s.take(4)[3]);
    }
    if le_u32_of(s) == FRAME_MAGIC {
        assert(s.take(4) =~= magic_bytes());
    }
}

/// An input of at least four bytes that does not open with the magic bytes
/// is rejected as `WrongMagic`.
pub proof fn lemma_wrong_magic(input: Seq<u8>)
    requires
        input.len() >= 4,
        input.take(4) != magic_bytes(),
    ensures
        decode_frame(input) == Err::<Seq<u8>, DecodeError>(DecodeError::WrongMagic),
{
    lemma_magic_bytes(input);
    assert(input.take(4).take(4) =~= input.take(4));
    lemma_magic_bytes(input.take(4));
}

/// A frame whose descriptor byte does not carry version `01` is rejected as
/// `WrongVersion`.
pub proof fn lemma_wrong_version(input: Seq<u8>)
    requires
        input.len() >= 6,
        input.take(4) == magic_bytes(),
        input[4] >> 6u8 != 1,
    ensures
        decode_frame(input) == Err::<Seq<u8>, DecodeError>(DecodeError::WrongVersion),
{
    assert(input.take(4).take(4) =~= input.take(4));
    lemma_magic_bytes(input.take(4));
    reveal_with_fuel(run, 2);
    assert(input.skip(4).take(2)[0] == input[4]);
}

/// A frame whose descriptor announces a dictionary id is rejected as
/// unsupported.
pub proof fn lemma_dict_id_rejected(input: Seq<u8>)
    requires
        input.len() >= 6,
        input.take(4) == magic_bytes(),
        input[4] >> 6u8 == 1,
        bit_set(input[4], 0),
    ensures
        decode_frame(input) == Err::<Seq<u8>, DecodeError>(
            DecodeError::UnsupportedFeature(Feature::DictId),
        ),
{
    assert(input.take(4).take(4) =~= input.take(4));
    lemma_magic_bytes(input.take(4));
    reveal_with_fuel(run, 2);
    assert(input.skip(4).take(2)[0] == input[4]);
}

/// Cutting any bytes off the end of a frame that decodes leaves an input that
/// fails for want of bytes.
pub proof fn lemma_run_truncated(
    phase: Phase,
    hdr: FrameHeaderInfo,
    out: Seq<u8>,
    input: Seq<u8>,
    k: nat,
)
    requires
        run(phase, hdr, out, input) is Ok,
        phase != Phase::Done,
        k < input.len(),
    ensures
        run(phase, hdr, out, input.take(k as int)) == Err::<Seq<u8>, DecodeError>(
            DecodeError::ReadIoError,
        ),
    decreases run_measure(phase, hdr, input),
{
    let w = wanted(phase, hdr);
    let short = input.take(k as int);
    match phase {
        Phase::Done => {},
        Phase::Trailing => {},
        _ => {
            if k >= w {
                assert(short.take(w as int) =~= input.take(w as int));
                assert(short.skip(w as int) =~= input.skip(w as int).take(k - w));
                let (p, h, o) = step(phase, hdr, out, input.take(w as int))->Ok_0;
                lemma_run_truncated(p, h, o, input.skip(w as int), (k - w) as nat);
            }
        },
    }
}

/// Decoding a frame followed by further bytes fails with `UnknownDataAtEnd`.
pub proof fn lemma_run_trailing(
    phase: Phase,
    hdr: FrameHeaderInfo,
    out: Seq<u8>,
    input: Seq<u8>,
    garbage: Seq<u8>,
)
    requires
        run(phase, hdr, out, input) is Ok,
        phase != Phase::Done,
        garbage.len() > 0,
    ensures
        run(phase, hdr, out, input + garbage) == Err::<Seq<u8>, DecodeError>(
            DecodeError::UnknownDataAtEnd,
        ),
    decreases run_measure(phase, hdr, input),
{
    let w = wanted(phase, hdr);
    let long = input + garbage;
    match phase {
        Phase::Done => {},
        Phase::Trailing => {},
        _ => {
            assert(long.take(w as int) =~= input.take(w as int));
            assert(long.skip(w as int) =~= input.skip(w as int) + garbage);
            let (p, h, o) = step(phase, hdr, out, input.take(w as int))->Ok_0;
            lemma_run_trailing(p, h, o, input.skip(w as int), garbage);
        },
    }
}

/// Removing one or more bytes from the end of a frame that decodes yields a
/// read error, never a silent success.
pub proof fn lemma_truncated_frame(input: Seq<u8>, k: nat)
    requires
        decode_frame(input) is Ok,
        k < input.len(),
    ensures
        decode_frame(input.take(k as int)) == Err::<Seq<u8>, DecodeError>(DecodeError::ReadIoError),
{
    lemma_run_truncated(Phase::Magic, crate::format::blank_header(), crate::format::zero_window(), input, k);
}

/// Appending any non-empty bytes to a frame that decodes yields
/// `UnknownDataAtEnd`.
pub proof fn lemma_trailing_garbage(input: Seq<u8>, garbage: Seq<u8>)
    requires
        decode_frame(input) is Ok,
        garbage.len() > 0,
    ensures
        decode_frame(input + garbage) == Err::<Seq<u8>, DecodeError>(DecodeError::UnknownDataAtEnd),
{
    lemma_run_trailing(
        Phase::Magic,
        crate::format::blank_header(),
        crate::format::zero_window(),
        input,
        garbage,
    );
}

/// A block header that declares a size the staging buffer cannot hold is
/// rejected with that size.
pub proof fn lemma_block_size_cap(hdr: FrameHeaderInfo, out: Seq<u8>, data: Seq<u8>)
    requires
        data.len() == 4,
        ((le_u32_of(data) as u32) & 0x7fff_ffffu32) >= INPUT_BUFFER_SIZE,
    ensures
        step(Phase::BlockHeader, hdr, out, data) == Err::<
            (Phase, FrameHeaderInfo, Seq<u8>),
            DecodeError,
        >(DecodeError::InvalidBlockSize(((le_u32_of(data) as u32) & 0x7fff_ffffu32) as usize)),
{
    let bh = le_u32_of(data) as u32;
    assert(bh == 0 ==> bh & 0x7fff_ffffu32 == 0) by (bit_vector);
}

/// A sequence whose match offset is zero makes its block corrupt, after its
/// literals have been emitted. The literal length `lits.len()` is given by the
/// token's high nibble and the length bytes `ext`.
pub proof fn lemma_zero_offset_rejected(
    tok: u8,
    ext: Seq<u8>,
    lits: Seq<u8>,
    tail: Seq<u8>,
    out: Seq<u8>,
)
    requires
        var_len(ext + lits + seq![0u8, 0u8] + tail, (tok / 16) as nat) == Some(
            (lits.len(), ext.len()),
        ),
    ensures
        decode_block(seq![tok] + ext + lits + seq![0u8, 0u8] + tail, out) is None,
        crate::format::emitted_before_fault(seq![tok] + ext + lits + seq![0u8, 0u8] + tail, out)
            == out + lits,
{
    let blk = seq![tok] + ext + lits + seq![0u8, 0u8] + tail;
    let r = blk.drop_first();
    assert(r =~= ext + lits + seq![0u8, 0u8] + tail);
    let r2 = r.skip(ext.len() as int);
    assert(r2 =~= lits + seq![0u8, 0u8] + tail);
    assert(r2.take(lits.len() as int) =~= lits);
    let r3 = r2.skip(lits.len() as int);
    assert(r3 =~= seq![0u8, 0u8] + tail);
    assert(r3[0] == 0 && r3[1] == 0);
    assert(decode_sequence(blk, out) is None);
}

/// The bytes a copy appends depend only on the last `off` bytes of the
/// stream, not on where those bytes sit in the ring: two streams that end
/// alike receive the same bytes.
pub proof fn lemma_copy_match_window(s1: Seq<u8>, s2: Seq<u8>, off: nat, n: nat)
    requires
        1 <= off <= s1.len(),
        off <= s2.len(),
        s1.subrange(s1.len() - off, s1.len() as int) == s2.subrange(
            s2.len() - off,
            s2.len() as int,
        ),
    ensures
        copy_match(s1, off, n).subrange(s1.len() as int, (s1.len() + n) as int) == copy_match(
            s2,
            off,
            n,
        ).subrange(s2.len() as int, (s2.len() + n) as int),
    decreases n,
{
    crate::write_buf::lemma_copy_match_len(s1, off, n);
    crate::write_buf::lemma_copy_match_len(s2, off, n);
    if n > 0 {
        let m = (n - 1) as nat;
        lemma_copy_match_window(s1, s2, off, m);
        crate::write_buf::lemma_copy_match_len(s1, off, m);
        crate::write_buf::lemma_copy_match_len(s2, off, m);
        let t1 = copy_match(s1, off, m);
        let t2 = copy_match(s2, off, m);
        let a = t1[t1.len() - off];
        let b = t2[t2.len() - off];
        if m >= off {
            assert(a == t1.subrange(s1.len() as int, (s1.len() + m) as int)[m - off]);
            assert(b == t2.subrange(s2.len() as int, (s2.len() + m) as int)[m - off]);
        } else {
            assert(a == t1.subrange(0, s1.len() as int)[s1.len() - off + m]);
            assert(b == t2.subrange(0, s2.len() as int)[s2.len() - off + m]);
            assert(a == s1.subrange(s1.len() - off, s1.len() as int)[m as int]);
            assert(b == s2.subrange(s2.len() - off, s2.len() as int)[m as int]);
        }
        assert(copy_match(s1, off, n).subrange(s1.len() as int, (s1.len() + n) as int) =~= t1.subrange(
            s1.len() as int,
            (s1.len() + m) as int,
        ).push(a));
        assert(copy_match(s2, off, n).subrange(s2.len() as int, (s2.len() + n) as int) =~= t2.subrange(
            s2.len() as int,
            (s2.len() + m) as int,
        ).push(b));
    }
}

/// Little-endian bytes of `v`.
pub open spec fn le_bytes(v: u32) -> Seq<u8> {
    seq![(v % 256) as u8, ((v / 256) % 256) as u8, ((v / 65536) % 256) as u8, (v / 16777216) as u8]
}

proof fn lemma_le_bytes(v: u32)
    ensures
        le_bytes(v).len() == 4,
        le_u32_of(le_bytes(v)) == v,
{
}

/// A frame holding one raw block decodes to that block's bytes.
#[verifier::rlimit(60)]
pub proof fn lemma_raw_block_identity(flg: u8, bd: u8, hc: u8, payload: Seq<u8>)
    requires
        flg >> 6u8 == 1,
        !bit_set(flg, 0),
        !bit_set(flg, 2),
        !bit_set(flg, 3),
        !bit_set(flg, 4),
        payload.len() < INPUT_BUFFER_SIZE,
    ensures
        decode_frame(
            magic_bytes() + seq![flg, bd, hc] + le_bytes((0x8000_0000 + payload.len()) as u32)
                + payload + seq![0u8, 0u8, 0u8, 0u8],
        ) == Ok::<Seq<u8>, DecodeError>(payload),
{
    let n = payload.len();
    let bh = (0x8000_0000 + n) as u32;
    let nn = n as u32;
    assert(bh == 0x8000_0000u32 + nn);
    assert(bh & 0x7fff_ffffu32 == nn && bh & 0x8000_0000u32 != 0 && bh != 0) by (bit_vector)
        requires
            nn < 0x40_0000u32,
            bh == (0x8000_0000u32 + nn) as u32,
    ;
    lemma_le_bytes(bh);
    let z4 = seq![0u8, 0u8, 0u8, 0u8];
    let hd = header_of(flg, bd);
    let zw = zero_window();
    let i0 = magic_bytes() + seq![flg, bd, hc] + le_bytes(bh) + payload + z4;
    let i1 = seq![flg, bd, hc] + le_bytes(bh) + payload + z4;
    let i2 = seq![hc] + le_bytes(bh) + payload + z4;
    let i3 = le_bytes(bh) + payload + z4;
    let i4 = payload + z4;
    assert(i0.take(4) =~= magic_bytes());
    lemma_magic_bytes(i0);
    assert(i0.skip(4) =~= i1);
    assert(i1.take(2) =~= seq![flg, bd]);
    assert(i1.skip(2) =~= i2);
    assert(i2.skip(1) =~= i3);
    assert(i3.take(4) =~= le_bytes(bh));
    assert(i3.skip(4) =~= i4);
    assert(i4.take(n as int) =~= payload);
    assert(i4.skip(n as int) =~= z4);
    assert(z4.take(4) =~= z4);
    assert(z4.skip(4) =~= Seq::<u8>::empty());
    assert((zw + payload).skip(WINDOW_SIZE as int) =~= payload);
    assert(run(Phase::Trailing, hd, zw + payload, z4.skip(4)) == Ok::<Seq<u8>, DecodeError>(payload));
    assert(run(Phase::BlockHeader, hd, zw + payload, z4) == Ok::<Seq<u8>, DecodeError>(payload));
    assert(run(Phase::Block { raw: true, size: n as usize }, hd, zw, i4) == Ok::<Seq<u8>, DecodeError>(payload));
    assert(run(Phase::BlockHeader, hd, zw, i3) == Ok::<Seq<u8>, DecodeError>(payload));
    assert(run(Phase::HeaderRest, hd, zw, i2) == Ok::<Seq<u8>, DecodeError>(payload));
    assert(run(Phase::Descriptor, blank_header(), zw, i1) == Ok::<Seq<u8>, DecodeError>(payload));
}

/// A block holding the literal `a`, then a match of offset one whose length
/// `n + 4` is given by the token nibble `m` and the length bytes `ext`, then
/// an empty closing sequence, decodes to `a` followed by `n + 4` more copies
/// of `a`.
pub proof fn lemma_run_block(a: u8, m: u8, ext: Seq<u8>, n: nat, out: Seq<u8>)
    requires
        m < 16,
        var_len(ext + seq![0u8], m as nat) == Some((n, ext.len())),
    ensures
        decode_block(seq![(16 + m) as u8, a, 1u8, 0u8] + ext + seq![0u8], out) == Some(
            out + seq![a] + Seq::new(n + 4, |i: int| a),
        ),
{
    let blk = seq![(16 + m) as u8, a, 1u8, 0u8] + ext + seq![0u8];
    let r = blk.drop_first();
    assert(r =~= seq![a, 1u8, 0u8] + (ext + seq![0u8]));
    assert(r.skip(0) =~= r);
    assert(r.take(1) =~= seq![a]);
    let r3 = r.skip(1);
    assert(r3 =~= seq![1u8, 0u8] + (ext + seq![0u8]));
    let r4 = r3.skip(2);
    assert(r4 =~= ext + seq![0u8]);
    let last = r4.skip(ext.len() as int);
    assert(last =~= seq![0u8]);
    let out1 = out + seq![a];
    crate::write_buf::lemma_copy_match_run(out1, n + 4);
    let o = copy_match(out1, 1, n + 4);
    assert(decode_sequence(blk, out) == Some((last, o, false)));
    let e = last.drop_first();
    assert(e.skip(0) =~= e);
    assert(e.take(0) =~= Seq::<u8>::empty());
    assert(o + e.take(0) =~= o);
    assert(decode_sequence(last, o) == Some((e.skip(0), o, true)));
    assert(out1.last() == a);
    assert(decode_block(last, o) == Some(o));
    assert(decode_block(blk, out) == Some(o));
}

/// Wherever decoding reaches a block header, however many blocks came
/// before, a header declaring a size the staging buffer cannot hold ends the
/// decoding with `InvalidBlockSize` of that size.
pub proof fn lemma_block_size_cap_run(hdr: FrameHeaderInfo, out: Seq<u8>, input: Seq<u8>)
    requires
        input.len() >= 4,
        ((le_u32_of(input) as u32) & 0x7fff_ffffu32) >= INPUT_BUFFER_SIZE,
    ensures
        run(Phase::BlockHeader, hdr, out, input) == Err::<Seq<u8>, DecodeError>(
            DecodeError::InvalidBlockSize(((le_u32_of(input) as u32) & 0x7fff_ffffu32) as usize),
        ),
{
    let d = input.take(4);
    assert(le_u32_of(d) == le_u32_of(input));
    lemma_block_size_cap(hdr, out, d);
}

/// A sequence whose literal length `l`, given by the token's high nibble and
/// the length bytes `ext`, is more than the bytes `rest` left in its block
/// makes the block corrupt, and emits nothing.
pub proof fn lemma_literal_overrun(tok: u8, ext: Seq<u8>, rest: Seq<u8>, l: nat, out: Seq<u8>)
    requires
        var_len(ext + rest, (tok / 16) as nat) == Some((l, ext.len())),
        rest.len() < l,
    ensures
        decode_block(seq![tok] + ext + rest, out) is None,
        crate::format::emitted_before_fault(seq![tok] + ext + rest, out) == out,
{
    let blk = seq![tok] + ext + rest;
    assert(blk.drop_first() =~= ext + rest);
    assert((ext + rest).skip(ext.len() as int) =~= rest);
}

} // verus!
