//! Octets in a row: big-endian numbers, and what it means to write a run
//! of octets into a longer one.

use vstd::prelude::*;

verus! {

/// The 16-bit number whose big-endian octets are `hi`, `lo`.
pub open spec fn be16(hi: u8, lo: u8) -> u16 {
    (hi as int * 256 + lo as int) as u16
}

/// The 32-bit number whose big-endian octets are `b0`, `b1`, `b2`, `b3`.
pub open spec fn be32(b0: u8, b1: u8, b2: u8, b3: u8) -> u32 {
    (((b0 as int * 256 + b1 as int) * 256 + b2 as int) * 256 + b3 as int) as u32
}

/// The more significant octet of `v`.
pub open spec fn high_octet(v: u16) -> u8 {
    (v as int / 256) as u8
}

/// The less significant octet of `v`.
pub open spec fn low_octet(v: u16) -> u8 {
    (v as int % 256) as u8
}

/// The two octets of `v`, most significant first.
pub open spec fn octets16(v: u16) -> Seq<u8> {
    seq![high_octet(v), low_octet(v)]
}

/// The four octets of `v`, most significant first.
pub open spec fn octets32(v: u32) -> Seq<u8> {
    seq![
        (v as int / 16777216) as u8,
        (v as int / 65536 % 256) as u8,
        (v as int / 256 % 256) as u8,
        (v as int % 256) as u8,
    ]
}

/// The 16-bit number that stands at `at` in `bytes`.
pub open spec fn u16_at(bytes: Seq<u8>, at: int) -> u16 {
    be16(bytes[at], bytes[at + 1])
}

/// The 32-bit number that stands at `at` in `bytes`.
pub open spec fn u32_at(bytes: Seq<u8>, at: int) -> u32 {
    be32(bytes[at], bytes[at + 1], bytes[at + 2], bytes[at + 3])
}

/// `bytes` with the octets from `at` on replaced by `data`; the length stays.
#[verifier::opaque]
pub open spec fn splice(bytes: Seq<u8>, at: int, data: Seq<u8>) -> Seq<u8>
    recommends
        0 <= at,
        at + data.len() <= bytes.len(),
{
    Seq::new(
        bytes.len(),
        |i: int|
            if at <= i < at + data.len() {
                data[i - at]
            } else {
                bytes[i]
            },
    )
}

/// `data` stands in `bytes` from `at` on.
pub open spec fn holds_at(bytes: Seq<u8>, at: int, data: Seq<u8>) -> bool {
    &&& 0 <= at
    &&& at + data.len() <= bytes.len()
    &&& forall|i: int| 0 <= i < data.len() ==> bytes[at + i] == #[trigger] data[i]
}

/// Writing one run of octets and then another behind it is writing both at once.
pub proof fn lemma_splice_twice(bytes: Seq<u8>, at: int, first: Seq<u8>, second: Seq<u8>)
    requires
        0 <= at,
        at + first.len() + second.len() <= bytes.len(),
    ensures
        splice(splice(bytes, at, first), at + first.len(), second) == splice(
            bytes,
            at,
            first + second,
        ),
{
    reveal(splice);
    assert(splice(splice(bytes, at, first), at + first.len(), second) =~= splice(
        bytes,
        at,
        first + second,
    ));
}

/// Writing nothing changes nothing.
pub proof fn lemma_splice_nothing(bytes: Seq<u8>, at: int)
    ensures
        splice(bytes, at, Seq::<u8>::empty()) == bytes,
{
    reveal(splice);
    assert(splice(bytes, at, Seq::<u8>::empty()) =~= bytes);
}

/// What was written stands where it was written.
pub proof fn lemma_splice_holds(bytes: Seq<u8>, at: int, data: Seq<u8>)
    requires
        0 <= at,
        at + data.len() <= bytes.len(),
    ensures
        splice(bytes, at, data).len() == bytes.len(),
        holds_at(splice(bytes, at, data), at, data),
        forall|i: int|
            0 <= i < bytes.len() && !(at <= i < at + data.len()) ==> splice(bytes, at, data)[i]
                == bytes[i],
{
    reveal(splice);
}

/// Writing over the middle of what was written is writing the new middle in
/// the first place.
pub proof fn lemma_splice_patch(
    bytes: Seq<u8>,
    at: int,
    first: Seq<u8>,
    gap: Seq<u8>,
    patch: Seq<u8>,
    last: Seq<u8>,
)
    requires
        0 <= at,
        at + first.len() + gap.len() + last.len() <= bytes.len(),
        gap.len() == patch.len(),
    ensures
        splice(splice(bytes, at, first + gap + last), at + first.len(), patch) == splice(
            bytes,
            at,
            first + patch + last,
        ),
{
    reveal(splice);
    assert(splice(splice(bytes, at, first + gap + last), at + first.len(), patch) =~= splice(
        bytes,
        at,
        first + patch + last,
    ));
}

/// A run of octets stands at a place exactly when its two halves stand there,
/// one behind the other.
pub proof fn lemma_holds_split(bytes: Seq<u8>, at: int, first: Seq<u8>, second: Seq<u8>)
    ensures
        holds_at(bytes, at, first + second) <==> holds_at(bytes, at, first) && holds_at(
            bytes,
            at + first.len(),
            second,
        ),
{
    let both = first + second;
    if holds_at(bytes, at, both) {
        assert forall|i: int| 0 <= i < first.len() implies bytes[at + i] == #[trigger] first[i] by {
            assert(both[i] == first[i]);
        }
        assert forall|i: int| 0 <= i < second.len() implies bytes[at + first.len() + i]
            == #[trigger] second[i] by {
            assert(both[first.len() + i] == second[i]);
        }
    }
    if holds_at(bytes, at, first) && holds_at(bytes, at + first.len(), second) {
        assert forall|i: int| 0 <= i < both.len() implies bytes[at + i] == #[trigger] both[i] by {
            if i < first.len() {
                assert(both[i] == first[i]);
            } else {
                assert(both[i] == second[i - first.len()]);
            }
        }
    }
}

/// A 16-bit number is the number that its two octets spell.
pub proof fn lemma_u16_round_trip(v: u16)
    ensures
        octets16(v).len() == 2,
        be16(octets16(v)[0], octets16(v)[1]) == v,
{
}

/// A 32-bit number is the number that its four octets spell.
pub proof fn lemma_u32_round_trip(v: u32)
    ensures
        octets32(v).len() == 4,
        be32(octets32(v)[0], octets32(v)[1], octets32(v)[2], octets32(v)[3]) == v,
{
}

/// Where the octets of a 16-bit number stand, that number is read.
pub proof fn lemma_u16_stands(bytes: Seq<u8>, at: int, v: u16)
    requires
        holds_at(bytes, at, octets16(v)),
    ensures
        u16_at(bytes, at) == v,
{
    assert(bytes[at + 0] == octets16(v)[0]);
    assert(bytes[at + 1] == octets16(v)[1]);
}

/// Where the octets of a 32-bit number stand, that number is read.
pub proof fn lemma_u32_stands(bytes: Seq<u8>, at: int, v: u32)
    requires
        holds_at(bytes, at, octets32(v)),
    ensures
        u32_at(bytes, at) == v,
{
    assert(bytes[at + 0] == octets32(v)[0]);
    assert(bytes[at + 1] == octets32(v)[1]);
    assert(bytes[at + 2] == octets32(v)[2]);
    assert(bytes[at + 3] == octets32(v)[3]);
}

/// An octet that was written is the octet that is read at the same place.
pub proof fn lemma_write_read_u8(bytes: Seq<u8>, at: int, v: u8)
    requires
        0 <= at < bytes.len(),
    ensures
        splice(bytes, at, seq![v])[at] == v,
{
    lemma_splice_holds(bytes, at, seq![v]);
    assert(seq![v][0] == v);
}

/// A 16-bit number that was written is the number that is read at the same
/// place, two octets on.
pub proof fn lemma_write_read_u16(bytes: Seq<u8>, at: int, v: u16)
    requires
        0 <= at,
        at + 2 <= bytes.len(),
    ensures
        octets16(v).len() == 2,
        u16_at(splice(bytes, at, octets16(v)), at) == v,
{
    lemma_splice_holds(bytes, at, octets16(v));
    lemma_u16_stands(splice(bytes, at, octets16(v)), at, v);
}

/// A 32-bit number that was written is the number that is read at the same
/// place, four octets on.
pub proof fn lemma_write_read_u32(bytes: Seq<u8>, at: int, v: u32)
    requires
        0 <= at,
        at + 4 <= bytes.len(),
    ensures
        octets32(v).len() == 4,
        u32_at(splice(bytes, at, octets32(v)), at) == v,
{
    lemma_splice_holds(bytes, at, octets32(v));
    lemma_u32_stands(splice(bytes, at, octets32(v)), at, v);
}

} // verus!
