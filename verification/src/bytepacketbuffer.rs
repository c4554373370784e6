//! The buffer that a message is read from and written to.

use crate::error::CodecError;
use crate::name::{
    decode_label, dotted, label_wire, labels_fit, labels_from, labels_wire, lemma_dotted_push,
    lemma_label_end_skip, lemma_labels_wire_first, name_at, name_error, name_fits, name_wire,
    push_label, split_labels, walk, DOT, MAX_JUMPS, MAX_LABEL,
};
use crate::wire::{
    lemma_splice_nothing, lemma_splice_twice, octets16, octets32, splice, u16_at, u32_at,
};
use vstd::prelude::*;
use vstd::slice::slice_subrange;
use vstd::string::{StringExecFns, StringSliceAdditionalSpecFns};

verus! {

/// The number of octets in a buffer: the most that one UDP message may hold.
pub const BUFFER_SIZE: usize = 512;

/// One message's worth of octets, and a cursor that reads and writes move.
#[derive(Clone, Copy, Debug)]
pub struct BytePacketBuffer {
    pub buf: [u8; 512],
    pub pos: usize,
}

impl BytePacketBuffer {
    /// The cursor stands inside the buffer, or just behind its last octet.
    pub open spec fn wf(&self) -> bool {
        self.pos <= BUFFER_SIZE
    }

    /// A buffer of zeros with the cursor at its start.
    pub fn new() -> (buffer: BytePacketBuffer)
        ensures
            buffer.pos == 0,
            buffer.buf@ == Seq::new(512, |i: int| 0u8),
            buffer.wf(),
    {
        let buffer = BytePacketBuffer { buf: [0; 512], pos: 0 };
        assert(buffer.buf@ =~= Seq::new(512, |i: int| 0u8));
        buffer
    }

    /// Where the cursor stands.
    pub fn pos(&self) -> (pos: usize)
        ensures
            pos == self.pos,
    {
        self.pos
    }

    /// Moves the cursor forward by `steps`, unless that would take it out of
    /// the buffer.
    pub fn step(&mut self, steps: usize) -> (done: Result<(), ()>)
        ensures
            final(self).buf == old(self).buf,
            done is Ok <==> old(self).pos + steps <= BUFFER_SIZE,
            done is Ok ==> final(self).pos == old(self).pos + steps,
            done is Err ==> final(self).pos == old(self).pos,
    {
        if self.pos > BUFFER_SIZE || steps > BUFFER_SIZE - self.pos {
            return Err(());
        }
        self.pos += steps;
        Ok(())
    }

    /// Puts the cursor at `pos`, unless that is outside the buffer.
    pub fn seek(&mut self, pos: usize) -> (done: Result<(), ()>)
        ensures
            final(self).buf == old(self).buf,
            done is Ok <==> pos <= BUFFER_SIZE,
            done is Ok ==> final(self).pos == pos,
            done is Err ==> final(self).pos == old(self).pos,
    {
        if pos > BUFFER_SIZE {
            return Err(());
        }
        self.pos = pos;
        Ok(())
    }

    /// Reads the octet under the cursor and moves the cursor past it.
    pub fn read(&mut self) -> (octet: Result<u8, CodecError>)
        ensures
            final(self).buf == old(self).buf,
            match octet {
                Ok(v) => {
                    &&& old(self).pos < BUFFER_SIZE
                    &&& v == old(self).buf@[old(self).pos as int]
                    &&& final(self).pos == old(self).pos + 1
                },
                Err(e) => {
                    &&& e == CodecError::EndOfBuffer
                    &&& old(self).pos >= BUFFER_SIZE
                    &&& final(self).pos == old(self).pos
                },
            },
    {
        if self.pos >= BUFFER_SIZE {
            return Err(CodecError::EndOfBuffer);
        }
        let res = self.buf[self.pos];
        self.pos += 1;
        Ok(res)
    }

    /// The octet at `pos`; the cursor plays no part.
    pub fn get(&self, pos: usize) -> (octet: Result<u8, CodecError>)
        ensures
            match octet {
                Ok(v) => {
                    &&& pos < BUFFER_SIZE
                    &&& v == self.buf@[pos as int]
                },
                Err(e) => {
                    &&& e == CodecError::EndOfBuffer
                    &&& pos >= BUFFER_SIZE
                },
            },
    {
        if pos >= BUFFER_SIZE {
            return Err(CodecError::EndOfBuffer);
        }
        Ok(self.buf[pos])
    }

    /// The `len` octets from `start` on; the cursor plays no part. A range
    /// may end with the buffer's last octet.
    pub fn get_range(&self, start: usize, len: usize) -> (octets: Result<&[u8], CodecError>)
        ensures
            match octets {
                Ok(s) => {
                    &&& start + len <= BUFFER_SIZE
                    &&& s@ == self.buf@.subrange(start as int, start + len)
                },
                Err(e) => {
                    &&& e == CodecError::EndOfBuffer
                    &&& start + len > BUFFER_SIZE
                },
            },
    {
        if start > BUFFER_SIZE || len > BUFFER_SIZE - start {
            return Err(CodecError::EndOfBuffer);
        }
        Ok(slice_subrange(self.buf.as_slice(), start, start + len))
    }

    /// Reads two octets as one big-endian number. Where fewer than two are
    /// left, nothing is read.
    pub fn read_u16(&mut self) -> (number: Result<u16, CodecError>)
        ensures
            final(self).buf == old(self).buf,
            match number {
                Ok(v) => {
                    &&& old(self).pos + 2 <= BUFFER_SIZE
                    &&& v == u16_at(old(self).buf@, old(self).pos as int)
                    &&& final(self).pos == old(self).pos + 2
                },
                Err(e) => {
                    &&& e == CodecError::EndOfBuffer
                    &&& old(self).pos + 2 > BUFFER_SIZE
                    &&& final(self).pos == old(self).pos
                },
            },
    {
        if self.pos > BUFFER_SIZE - 2 {
            return Err(CodecError::EndOfBuffer);
        }
        let hi = self.buf[self.pos];
        let lo = self.buf[self.pos + 1];
        self.pos += 2;
        assert(((hi as u16) << 8) | (lo as u16) == (hi as u16) * 256 + (lo as u16))
            by (bit_vector);
        Ok(((hi as u16) << 8) | (lo as u16))
    }

    /// Reads four octets as one big-endian number. Where fewer than four are
    /// left, nothing is read.
    pub fn read_u32(&mut self) -> (number: Result<u32, CodecError>)
        ensures
            final(self).buf == old(self).buf,
            match number {
                Ok(v) => {
                    &&& old(self).pos + 4 <= BUFFER_SIZE
                    &&& v == u32_at(old(self).buf@, old(self).pos as int)
                    &&& final(self).pos == old(self).pos + 4
                },
                Err(e) => {
                    &&& e == CodecError::EndOfBuffer
                    &&& old(self).pos + 4 > BUFFER_SIZE
                    &&& final(self).pos == old(self).pos
                },
            },
    {
        if self.pos > BUFFER_SIZE - 4 {
            return Err(CodecError::EndOfBuffer);
        }
        let b0 = self.buf[self.pos];
        let b1 = self.buf[self.pos + 1];
        let b2 = self.buf[self.pos + 2];
        let b3 = self.buf[self.pos + 3];
        self.pos += 4;
        assert(((b0 as u32) << 24) | ((b1 as u32) << 16) | ((b2 as u32) << 8) | (b3 as u32) == (((b0
            as u32) * 256 + (b1 as u32)) * 256 + (b2 as u32)) * 256 + (b3 as u32)) by (bit_vector);
        Ok(((b0 as u32) << 24) | ((b1 as u32) << 16) | ((b2 as u32) << 8) | (b3 as u32))
    }

    /// Writes one octet under the cursor and moves the cursor past it.
    pub fn write(&mut self, val: u8) -> (done: Result<(), CodecError>)
        ensures
            match done {
                Ok(()) => {
                    &&& old(self).pos < BUFFER_SIZE
                    &&& final(self).pos == old(self).pos + 1
                    &&& final(self).buf@ == splice(old(self).buf@, old(self).pos as int, seq![val])
                },
                Err(e) => {
                    &&& e == CodecError::EndOfBuffer
                    &&& old(self).pos >= BUFFER_SIZE
                    &&& *final(self) == *old(self)
                },
            },
    {
        if self.pos >= BUFFER_SIZE {
            return Err(CodecError::EndOfBuffer);
        }
        self.buf[self.pos] = val;
        self.pos += 1;
        proof {
            reveal(splice);
        }
        assert(self.buf@ =~= splice(old(self).buf@, old(self).pos as int, seq![val]));
        Ok(())
    }

    /// Writes one octet under the cursor and moves the cursor past it.
    pub fn write_u8(&mut self, val: u8) -> (done: Result<(), CodecError>)
        ensures
            match done {
                Ok(()) => {
                    &&& old(self).pos < BUFFER_SIZE
                    &&& final(self).pos == old(self).pos + 1
                    &&& final(self).buf@ == splice(old(self).buf@, old(self).pos as int, seq![val])
                },
                Err(e) => {
                    &&& e == CodecError::EndOfBuffer
                    &&& old(self).pos >= BUFFER_SIZE
                    &&& *final(self) == *old(self)
                },
            },
    {
        self.write(val)
    }

    /// Writes `val` as two octets, most significant first. Where fewer than
    /// two are left, nothing is written.
    pub fn write_u16(&mut self, val: u16) -> (done: Result<(), CodecError>)
        ensures
            match done {
                Ok(()) => {
                    &&& old(self).pos + 2 <= BUFFER_SIZE
                    &&& final(self).pos == old(self).pos + 2
                    &&& final(self).buf@ == splice(
                        old(self).buf@,
                        old(self).pos as int,
                        octets16(val),
                    )
                },
                Err(e) => {
                    &&& e == CodecError::EndOfBuffer
                    &&& old(self).pos + 2 > BUFFER_SIZE
                    &&& *final(self) == *old(self)
                },
            },
    {
        if self.pos > BUFFER_SIZE - 2 {
            return Err(CodecError::EndOfBuffer);
        }
        assert(val >> 8 == val / 256 && val & 0xFF == val % 256) by (bit_vector);
        self.buf[self.pos] = (val >> 8) as u8;
        self.buf[self.pos + 1] = (val & 0xFF) as u8;
        self.pos += 2;
        proof {
            reveal(splice);
        }
        assert(self.buf@ =~= splice(old(self).buf@, old(self).pos as int, octets16(val)));
        Ok(())
    }

    /// Writes `val` as four octets, most significant first. Where fewer than
    /// four are left, nothing is written.
    pub fn write_u32(&mut self, val: u32) -> (done: Result<(), CodecError>)
        ensures
            match done {
                Ok(()) => {
                    &&& old(self).pos + 4 <= BUFFER_SIZE
                    &&& final(self).pos == old(self).pos + 4
                    &&& final(self).buf@ == splice(
                        old(self).buf@,
                        old(self).pos as int,
                        octets32(val),
                    )
                },
                Err(e) => {
                    &&& e == CodecError::EndOfBuffer
                    &&& old(self).pos + 4 > BUFFER_SIZE
                    &&& *final(self) == *old(self)
                },
            },
    {
        if self.pos > BUFFER_SIZE - 4 {
            return Err(CodecError::EndOfBuffer);
        }
        assert((val >> 24) & 0xFF == val / 16777216 && (val >> 16) & 0xFF == val / 65536 % 256 && (
        val >> 8) & 0xFF == val / 256 % 256 && val & 0xFF == val % 256) by (bit_vector);
        self.buf[self.pos] = ((val >> 24) & 0xFF) as u8;
        self.buf[self.pos + 1] = ((val >> 16) & 0xFF) as u8;
        self.buf[self.pos + 2] = ((val >> 8) & 0xFF) as u8;
        self.buf[self.pos + 3] = (val & 0xFF) as u8;
        self.pos += 4;
        proof {
            reveal(splice);
        }
        assert(self.buf@ =~= splice(old(self).buf@, old(self).pos as int, octets32(val)));
        Ok(())
    }

    /// Writes a run of octets under the cursor and moves the cursor past
    /// it. Where the run does not fit, nothing is written.
    pub fn write_octets(&mut self, octets: &[u8]) -> (done: Result<(), CodecError>)
        ensures
            match done {
                Ok(()) => {
                    &&& old(self).pos + octets@.len() <= BUFFER_SIZE
                    &&& final(self).pos == old(self).pos + octets@.len()
                    &&& final(self).buf@ == splice(old(self).buf@, old(self).pos as int, octets@)
                },
                Err(e) => {
                    &&& e == CodecError::EndOfBuffer
                    &&& old(self).pos + octets@.len() > BUFFER_SIZE
                    &&& *final(self) == *old(self)
                },
            },
    {
        if self.pos > BUFFER_SIZE || octets.len() > BUFFER_SIZE - self.pos {
            return Err(CodecError::EndOfBuffer);
        }
        let ghost base = self.buf@;
        let ghost origin = self.pos as int;
        let mut i: usize = 0;
        proof {
            reveal(splice);
        }
        assert(self.buf@ =~= splice(base, origin, octets@.subrange(0, 0)));
        while i < octets.len()
            invariant
                i <= octets@.len(),
                0 <= origin,
                origin + octets@.len() <= BUFFER_SIZE,
                self.pos == origin + i,
                self.buf@ == splice(base, origin, octets@.subrange(0, i as int)),
            decreases octets@.len() - i,
        {
            self.buf[self.pos] = octets[i];
            self.pos += 1;
            i += 1;
            proof {
                reveal(splice);
            }
            assert(self.buf@ =~= splice(base, origin, octets@.subrange(0, i as int)));
        }
        assert(octets@.subrange(0, i as int) =~= octets@);
        Ok(())
    }

    /// Puts `val` at `pos`; the cursor plays no part.
    pub fn set(&mut self, pos: usize, val: u8) -> (done: Result<(), ()>)
        ensures
            final(self).pos == old(self).pos,
            done is Ok <==> pos < BUFFER_SIZE,
            done is Ok ==> final(self).buf@ == splice(old(self).buf@, pos as int, seq![val]),
            done is Err ==> final(self).buf == old(self).buf,
    {
        if pos >= BUFFER_SIZE {
            return Err(());
        }
        self.buf[pos] = val;
        proof {
            reveal(splice);
        }
        assert(self.buf@ =~= splice(old(self).buf@, pos as int, seq![val]));
        Ok(())
    }

    /// Puts the two octets of `val` at `pos`, most significant first; the
    /// cursor plays no part. Where the two do not both fit, nothing is
    /// written.
    pub fn set_u16(&mut self, pos: usize, val: u16) -> (done: Result<(), ()>)
        ensures
            final(self).pos == old(self).pos,
            done is Ok <==> pos + 2 <= BUFFER_SIZE,
            done is Ok ==> final(self).buf@ == splice(old(self).buf@, pos as int, octets16(val)),
            done is Err ==> final(self).buf == old(self).buf,
    {
        if pos > BUFFER_SIZE - 2 {
            return Err(());
        }
        assert(val >> 8 == val / 256 && val & 0xFF == val % 256) by (bit_vector);
        self.buf[pos] = (val >> 8) as u8;
        self.buf[pos + 1] = (val & 0xFF) as u8;
        proof {
            reveal(splice);
        }
        assert(self.buf@ =~= splice(old(self).buf@, pos as int, octets16(val)));
        Ok(())
    }

    /// Reads the name under the cursor, follows its compression pointers,
    /// and puts its text behind what `outstr` holds. The cursor then stands
    /// behind the name: behind its zero octet, or behind the first pointer.
    /// Where the name cannot be read, neither the buffer nor `outstr`
    /// changes.
    pub fn read_qname(&mut self, outstr: &mut String) -> (done: Result<(), CodecError>)
        ensures
            final(self).buf == old(self).buf,
            old(self).wf() ==> final(self).wf(),
            match done {
                Ok(()) => name_at(old(self).buf@, old(self).pos as int) matches Ok((text, end))
                    && final(outstr)@ == old(outstr)@ + text && final(self).pos == end,
                Err(e) => name_at(old(self).buf@, old(self).pos as int) matches Err(why) && why
                    == e && final(self).pos == old(self).pos && final(outstr)@ == old(outstr)@,
            },
    {
        let ghost bytes = self.buf@;
        let ghost start = self.pos as int;
        let ghost labels: Seq<Seq<u8>> = Seq::empty();
        let mut pos = self.pos;
        let mut hops = MAX_JUMPS;
        let mut jumped = false;
        let mut behind: usize = 0;
        let mut name = String::new();
        let mut first = true;
        assert(labels + Seq::<Seq<u8>>::empty() =~= labels);
        loop
            invariant
                self.buf@ == bytes,
                bytes.len() == BUFFER_SIZE,
                start == old(self).pos,
                self.buf == old(self).buf,
                self.pos == old(self).pos,
                outstr@ == old(outstr)@,
                hops <= MAX_JUMPS,
                jumped ==> behind <= BUFFER_SIZE,
                first == (labels.len() == 0),
                name@ == dotted(labels),
                walk(bytes, start, MAX_JUMPS as nat) == (match walk(
                    bytes,
                    pos as int,
                    hops as nat,
                ) {
                    Ok((rest, end)) => Ok(
                        (
                            labels + rest,
                            if jumped {
                                behind as int
                            } else {
                                end
                            },
                        ),
                    ),
                    Err(e) => Err(e),
                }),
            decreases hops, BUFFER_SIZE - pos,
        {
            let len = match self.get(pos) {
                Ok(v) => v,
                Err(e) => {
                    return Err(e);
                },
            };
            if len >= 0xC0 {
                let second = match self.get(pos + 1) {
                    Ok(v) => v,
                    Err(e) => {
                        return Err(e);
                    },
                };
                if hops == 0 {
                    return Err(CodecError::TooManyJumps);
                }
                if !jumped {
                    behind = pos + 2;
                    jumped = true;
                }
                pos = (((len - 0xC0) as usize) << 8) | (second as usize);
                assert((((len - 0xC0) as usize) << 8) | (second as usize) == ((len - 0xC0) as usize)
                    * 256 + (second as usize)) by (bit_vector)
                    requires
                        len >= 0xC0,
                ;
                hops -= 1;
            } else if len as usize > MAX_LABEL {
                return Err(CodecError::LabelTooLong);
            } else if len == 0 {
                if !jumped {
                    behind = pos + 1;
                }
                self.pos = behind;
                outstr.append(name.as_str());
                assert(labels + Seq::<Seq<u8>>::empty() =~= labels);
                return Ok(());
            } else {
                let octets = match self.get_range(pos + 1, len as usize) {
                    Ok(v) => v,
                    Err(e) => {
                        return Err(e);
                    },
                };
                let text = decode_label(octets);
                push_label(&mut name, first, text.as_str());
                first = false;
                proof {
                    lemma_dotted_push(labels, octets@);
                    assert forall|rest: Seq<Seq<u8>>| labels + (seq![octets@] + rest)
                        =~= #[trigger] (labels.push(octets@) + rest) by {}
                    labels = labels.push(octets@);
                }
                pos = pos + 1 + len as usize;
            }
        }
    }

    /// Writes `qname` under the cursor, label by label and without
    /// compression, and moves the cursor past it. Where a label is too long
    /// or the name does not fit, nothing is written.
    pub fn write_qname(&mut self, qname: &str) -> (done: Result<(), CodecError>)
        ensures
            match done {
                Ok(()) => {
                    &&& name_error(qname.spec_bytes(), old(self).pos as int) is None
                    &&& final(self).pos == old(self).pos + qname.spec_bytes().len() + 2
                    &&& final(self).buf@ == splice(
                        old(self).buf@,
                        old(self).pos as int,
                        name_wire(qname.spec_bytes()),
                    )
                },
                Err(e) => name_error(qname.spec_bytes(), old(self).pos as int) == Some(e)
                    && *final(self) == *old(self),
            },
    {
        let name = qname.as_bytes();
        if !name_fits(name) {
            return Err(CodecError::LabelTooLong);
        }
        let n = name.len();
        if self.pos > BUFFER_SIZE || n > BUFFER_SIZE - 2 || n + 2 > BUFFER_SIZE - self.pos {
            return Err(CodecError::EndOfBuffer);
        }
        let ghost base = self.buf@;
        let ghost origin = self.pos as int;
        let ghost written: Seq<u8> = Seq::empty();
        let mut start: usize = 0;
        proof {
            lemma_splice_nothing(base, origin);
        }
        assert(written + name_wire(name@) =~= name_wire(name@));
        loop
            invariant
                name@ == qname.spec_bytes(),
                labels_fit(split_labels(name@)),
                base == old(self).buf@,
                origin == old(self).pos,
                n == name@.len(),
                0 <= origin,
                origin + n + 2 <= BUFFER_SIZE,
                start <= n,
                self.pos == origin + start,
                written.len() == start,
                self.buf@ == splice(base, origin, written),
                labels_fit(labels_from(name@, start as int)),
                written + labels_wire(labels_from(name@, start as int)) == name_wire(name@),
            decreases n - start,
        {
            let mut end = start;
            while end < n && name[end] != DOT
                invariant
                    n == name@.len(),
                    start <= end <= n,
                    forall|k: int| start <= k < end ==> name@[k] != DOT,
                decreases n - end,
            {
                end += 1;
            }
            let label = slice_subrange(name, start, end);
            let ghost rest = if end < n {
                labels_from(name@, end + 1)
            } else {
                Seq::empty()
            };
            proof {
                lemma_label_end_skip(name@, start as int, end as int);
                assert(labels_from(name@, start as int) =~= seq![label@] + rest);
                assert(labels_from(name@, start as int)[0] == label@);
                lemma_labels_wire_first(label@, rest);
                lemma_splice_twice(base, origin, written, seq![label@.len() as u8]);
                lemma_splice_twice(base, origin, written + seq![label@.len() as u8], label@);
                assert(written + (label_wire(label@) + labels_wire(rest)) =~= written + seq![
                    label@.len() as u8,
                ] + label@ + labels_wire(rest));
            }
            let _ = self.write_u8((end - start) as u8);
            let _ = self.write_octets(label);
            proof {
                written = written + seq![label@.len() as u8] + label@;
            }
            if end == n {
                proof {
                    lemma_splice_twice(base, origin, written, seq![0u8]);
                }
                let _ = self.write_u8(0);
                return Ok(());
            }
            start = end + 1;
        }
    }
}

} // verus!
