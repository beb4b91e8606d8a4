//! The recorder's side of the capture file: the header and the frame
//! records it writes while grabbing frames.
use vstd::prelude::*;
use crate::capture::{header_bytes, le_bytes, push_u32_le, record_bytes, records_bytes};

verus! {

/// How many frames one recording grabs.
pub const CAPTURE_FRAMES: u32 = 30;

/// The capture header for a screen of `xres` by `yres` pixels of
/// `bits_per_pixel` bits: width, height and whole bytes per pixel.
pub fn capture_header(xres: u32, yres: u32, bits_per_pixel: u32) -> (out: Vec<u8>)
    ensures
        out@ == header_bytes(xres, yres, bits_per_pixel / 8),
{
    let mut out: Vec<u8> = Vec::new();
    push_u32_le(&mut out, xres);
    push_u32_le(&mut out, yres);
    push_u32_le(&mut out, bits_per_pixel / 8);
    out
}

/// The four little-endian bytes of a frame's time bits, written after the
/// frame's bytes.
pub fn time_bytes(time_bits: u32) -> (out: Vec<u8>)
    ensures
        out@ == le_bytes(time_bits),
{
    let mut out: Vec<u8> = Vec::new();
    push_u32_le(&mut out, time_bits);
    assert(out@ =~= le_bytes(time_bits));
    out
}

/// Appends one frame record: the frame's bytes, then the four little-endian
/// bytes of its time bits.
pub fn append_frame_record(out: &mut Vec<u8>, frame: &[u8], time_bits: u32)
    ensures
        final(out)@ == old(out)@ + record_bytes(frame@, time_bits),
{
    let ghost start = out@;
    let mut i: usize = 0;
    while i < frame.len()
        invariant
            i <= frame@.len(),
            out@ == start + frame@.subrange(0, i as int),
        decreases frame@.len() - i,
    {
        out.push(frame[i]);
        i += 1;
        assert(out@ =~= start + frame@.subrange(0, i as int));
    }
    assert(frame@.subrange(0, frame@.len() as int) =~= frame@);
    push_u32_le(out, time_bits);
    assert(out@ =~= start + (frame@ + le_bytes(time_bits)));
}

/// The frame record for one frame, on its own.
pub fn frame_record(frame: &[u8], time_bits: u32) -> (out: Vec<u8>)
    ensures
        out@ == record_bytes(frame@, time_bits),
{
    let mut out: Vec<u8> = Vec::new();
    append_frame_record(&mut out, frame, time_bits);
    assert(out@ =~= record_bytes(frame@, time_bits));
    out
}

/// Writing frame records one after another, in the order the frames were
/// grabbed, gives the records of all of them: appending one more record to
/// the records written so far gives the records of the longer sequence.
pub proof fn lemma_records_append(records: Seq<(Seq<u8>, u32)>, frame: Seq<u8>, time_bits: u32)
    ensures
        records_bytes(records.push((frame, time_bits))) == records_bytes(records) + record_bytes(
            frame,
            time_bits,
        ),
    decreases records.len(),
{
    let longer = records.push((frame, time_bits));
    if records.len() == 0 {
        assert(longer.drop_first() =~= Seq::<(Seq<u8>, u32)>::empty());
        assert(records_bytes(longer.drop_first()) =~= Seq::<u8>::empty());
        assert(longer[0] == (frame, time_bits));
        assert(records_bytes(longer) =~= record_bytes(frame, time_bits));
    } else {
        lemma_records_append(records.drop_first(), frame, time_bits);
        assert(longer.drop_first() =~= records.drop_first().push((frame, time_bits)));
        assert(records_bytes(longer) =~= records_bytes(records) + record_bytes(frame, time_bits));
    }
}

} // verus!
