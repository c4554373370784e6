//! Domain names: their labels, their form on the wire with and without
//! compression pointers, and their text.

use crate::bytepacketbuffer::BUFFER_SIZE;
use crate::error::{found, CodecError};
use crate::wire::{holds_at, lemma_holds_split, lemma_splice_holds, splice};
use vstd::prelude::*;
use vstd::string::StringExecFns;
use vstd::utf8::{char_u32_cast, encode_utf8, is_ascii_chars, is_ascii_chars_encode_utf8};

verus! {

/// The most octets that one label may hold.
pub const MAX_LABEL: usize = 63;

/// The most compression pointers that a reader follows within one name.
pub const MAX_JUMPS: usize = 5;

/// The octet that parts the labels of a name in its text form.
pub const DOT: u8 = 0x2E;

/// Where the label that starts at `from` ends: at the next dot, or with the
/// name.
pub open spec fn label_end(name: Seq<u8>, from: int) -> int
    decreases name.len() - from,
{
    if from < 0 || from >= name.len() || name[from] == DOT {
        from
    } else {
        label_end(name, from + 1)
    }
}

/// The labels of the part of `name` that starts at `from`.
pub open spec fn labels_from(name: Seq<u8>, from: int) -> Seq<Seq<u8>>
    recommends
        0 <= from <= name.len(),
    decreases name.len() - from,
{
    let end = label_end(name, from);
    if from <= end < name.len() {
        seq![name.subrange(from, end)] + labels_from(name, end + 1)
    } else {
        seq![name.subrange(from, name.len() as int)]
    }
}

/// The labels of `name`: what stands between its dots. A name without a dot
/// is one label, and so is the empty name.
pub open spec fn split_labels(name: Seq<u8>) -> Seq<Seq<u8>> {
    labels_from(name, 0)
}

/// No label is too long for a length octet.
pub open spec fn labels_fit(labels: Seq<Seq<u8>>) -> bool {
    forall|i: int| 0 <= i < labels.len() ==> (#[trigger] labels[i]).len() <= MAX_LABEL
}

/// One label on the wire: its length, then its octets.
pub open spec fn label_wire(label: Seq<u8>) -> Seq<u8> {
    seq![label.len() as u8] + label
}

/// A run of labels on the wire: each with its length before it, and a zero
/// octet at the end.
pub open spec fn labels_wire(labels: Seq<Seq<u8>>) -> Seq<u8>
    decreases labels.len(),
{
    if labels.len() == 0 {
        seq![0u8]
    } else {
        label_wire(labels[0]) + labels_wire(labels.drop_first())
    }
}

/// A name on the wire, uncompressed.
pub open spec fn name_wire(name: Seq<u8>) -> Seq<u8> {
    labels_wire(split_labels(name))
}

/// Where a compression pointer with these two octets points.
pub open spec fn pointer_target(first: u8, second: u8) -> int {
    (first - 0xC0) * 256 + second
}

/// Reads the name that starts at `at`, following at most `hops` pointers: its
/// labels, and where the reader stands when it has passed the name. That is
/// behind the zero octet where the name holds no pointer, and behind the
/// first pointer where it holds one.
pub open spec fn walk(bytes: Seq<u8>, at: int, hops: nat) -> Result<(Seq<Seq<u8>>, int), CodecError>
    decreases hops, bytes.len() - at,
{
    if at < 0 || at >= bytes.len() {
        Err(CodecError::EndOfBuffer)
    } else if bytes[at] >= 0xC0 {
        if at + 1 >= bytes.len() {
            Err(CodecError::EndOfBuffer)
        } else if hops == 0 {
            Err(CodecError::TooManyJumps)
        } else {
            match walk(bytes, pointer_target(bytes[at], bytes[at + 1]), (hops - 1) as nat) {
                Ok((labels, _)) => Ok((labels, at + 2)),
                Err(e) => Err(e),
            }
        }
    } else if bytes[at] > MAX_LABEL {
        Err(CodecError::LabelTooLong)
    } else if bytes[at] == 0 {
        Ok((Seq::empty(), at + 1))
    } else if at + 1 + bytes[at] > bytes.len() {
        Err(CodecError::EndOfBuffer)
    } else {
        match walk(bytes, at + 1 + bytes[at], hops) {
            Ok((labels, end)) => Ok(
                (seq![bytes.subrange(at + 1, at + 1 + bytes[at])] + labels, end),
            ),
            Err(e) => Err(e),
        }
    }
}

/// Every octet is an ASCII character.
pub open spec fn is_ascii_octets(octets: Seq<u8>) -> bool {
    forall|i: int| 0 <= i < octets.len() ==> #[trigger] octets[i] < 128
}

/// An ASCII capital letter becomes the small one; any other octet stays.
pub open spec fn lower_octet(octet: u8) -> u8 {
    if 0x41 <= octet <= 0x5A {
        (octet + 32) as u8
    } else {
        octet
    }
}

/// ASCII octets as text, capital letters made small.
pub open spec fn ascii_text(octets: Seq<u8>) -> Seq<char> {
    Seq::new(octets.len(), |i: int| lower_octet(octets[i]) as char)
}

/// The text that `String::from_utf8_lossy` makes of these octets.
pub uninterp spec fn lossy_text(octets: Seq<u8>) -> Seq<char>;

/// The text that `str::to_lowercase` makes of this text.
pub uninterp spec fn lowercase_text(text: Seq<char>) -> Seq<char>;

/// A label as text. ASCII octets, which is all that a host name holds, stand
/// for their characters, capital letters made small. Other octets are read
/// as UTF-8 with a replacement character for what is none, and lower-cased
/// as Unicode has it.
pub open spec fn label_text(label: Seq<u8>) -> Seq<char> {
    if is_ascii_octets(label) {
        ascii_text(label)
    } else {
        lowercase_text(lossy_text(label))
    }
}

/// Labels as one text, with a dot between each two.
pub open spec fn dotted(labels: Seq<Seq<u8>>) -> Seq<char>
    decreases labels.len(),
{
    if labels.len() == 0 {
        Seq::empty()
    } else if labels.len() == 1 {
        label_text(labels[0])
    } else {
        dotted(labels.drop_last()) + seq!['.'] + label_text(labels.last())
    }
}

/// Reads the name that starts at `at` as text, with where the reader stands
/// behind it.
pub open spec fn name_at(bytes: Seq<u8>, at: int) -> Result<(Seq<char>, int), CodecError> {
    match walk(bytes, at, MAX_JUMPS as nat) {
        Ok((labels, end)) => Ok((dotted(labels), end)),
        Err(e) => Err(e),
    }
}

/// `name` ends with the octets of `tail`.
pub open spec fn is_suffix(name: Seq<u8>, tail: Seq<u8>) -> bool {
    tail.len() <= name.len() && name.subrange(name.len() - tail.len(), name.len() as int) == tail
}

/// The text `name` ends with the text `tail`, both taken as the octets that
/// spell them.
pub open spec fn name_ends_with(name: Seq<char>, tail: Seq<char>) -> bool {
    is_suffix(encode_utf8(name), encode_utf8(tail))
}

/// Why a name cannot be written at `at`, if it cannot: a label that is too
/// long comes before a lack of room.
pub open spec fn name_error(name: Seq<u8>, at: int) -> Option<CodecError> {
    if !labels_fit(split_labels(name)) {
        Some(CodecError::LabelTooLong)
    } else if at + name.len() + 2 > BUFFER_SIZE {
        Some(CodecError::EndOfBuffer)
    } else {
        None
    }
}

/// A label ends where it ends, from wherever in it one looks.
pub proof fn lemma_label_end_skip(name: Seq<u8>, from: int, to: int)
    requires
        0 <= from <= to <= name.len(),
        forall|k: int| from <= k < to ==> name[k] != DOT,
    ensures
        label_end(name, from) == label_end(name, to),
        to <= label_end(name, to) <= name.len(),
        label_end(name, to) < name.len() ==> name[label_end(name, to)] == DOT,
    decreases name.len() - from,
{
    if from < to {
        lemma_label_end_skip(name, from + 1, to);
    } else if to < name.len() && name[to] != DOT {
        lemma_label_end_skip(name, to + 1, to + 1);
    }
}

/// No dot stands inside a label.
pub proof fn lemma_label_has_no_dot(name: Seq<u8>, from: int)
    requires
        0 <= from <= name.len(),
    ensures
        from <= label_end(name, from) <= name.len(),
        forall|k: int| from <= k < label_end(name, from) ==> name[k] != DOT,
    decreases name.len() - from,
{
    if from < name.len() && name[from] != DOT {
        lemma_label_has_no_dot(name, from + 1);
    }
}

/// A run of labels on the wire is its first label, then the others.
pub proof fn lemma_labels_wire_first(first: Seq<u8>, rest: Seq<Seq<u8>>)
    ensures
        labels_wire(seq![first] + rest) == label_wire(first) + labels_wire(rest),
        labels_fit(seq![first] + rest) <==> first.len() <= MAX_LABEL && labels_fit(rest),
{
    let all = seq![first] + rest;
    assert(all.drop_first() =~= rest);
    assert(all[0] == first);
    if labels_fit(all) {
        assert forall|i: int| 0 <= i < rest.len() implies (#[trigger] rest[i]).len()
            <= MAX_LABEL by {
            assert(all[i + 1] == rest[i]);
        }
    }
}

/// On the wire a name takes two octets more than in its text form.
pub proof fn lemma_name_wire_len(name: Seq<u8>, from: int)
    requires
        0 <= from <= name.len(),
    ensures
        labels_wire(labels_from(name, from)).len() == name.len() - from + 2,
    decreases name.len() - from,
{
    let end = label_end(name, from);
    lemma_label_has_no_dot(name, from);
    if end < name.len() {
        lemma_name_wire_len(name, end + 1);
        lemma_labels_wire_first(name.subrange(from, end), labels_from(name, end + 1));
    } else {
        lemma_labels_wire_first(name.subrange(from, name.len() as int), Seq::empty());
        assert(seq![name.subrange(from, name.len() as int)] + Seq::<Seq<u8>>::empty()
            =~= seq![name.subrange(from, name.len() as int)]);
    }
}

/// The text of a run of labels with one more label behind it.
pub proof fn lemma_dotted_push(labels: Seq<Seq<u8>>, label: Seq<u8>)
    ensures
        dotted(labels.push(label)) == if labels.len() == 0 {
            label_text(label)
        } else {
            dotted(labels) + seq!['.'] + label_text(label)
        },
{
    assert(labels.push(label).drop_last() =~= labels);
}

/// A name that a reader gives back as it was written: each of its labels
/// has between one and 63 octets.
pub open spec fn labels_sound(labels: Seq<Seq<u8>>) -> bool {
    forall|i: int| 0 <= i < labels.len() ==> 1 <= (#[trigger] labels[i]).len() <= MAX_LABEL
}

/// A text that a reader gives back as it was written: ASCII without capital
/// letters, in labels of between one and 63 characters.
pub open spec fn plain_name(text: Seq<char>) -> bool {
    &&& is_ascii_chars(text)
    &&& forall|i: int| 0 <= i < text.len() ==> !('A' <= #[trigger] text[i] <= 'Z')
    &&& labels_sound(split_labels(encode_utf8(text)))
}

/// The text of labels is the text of the first, and behind a dot that of the
/// others.
pub proof fn lemma_dotted_first(first: Seq<u8>, rest: Seq<Seq<u8>>)
    ensures
        dotted(seq![first] + rest) == if rest.len() == 0 {
            label_text(first)
        } else {
            label_text(first) + seq!['.'] + dotted(rest)
        },
    decreases rest.len(),
{
    let all = seq![first] + rest;
    if rest.len() == 0 {
        assert(all[0] == first);
    } else {
        assert(all.drop_last() =~= seq![first] + rest.drop_last());
        assert(all.last() == rest.last());
        lemma_dotted_first(first, rest.drop_last());
        if rest.len() == 1 {
            assert(rest[0] == rest.last());
            assert(dotted(rest) == label_text(rest.last()));
        } else {
            assert(label_text(first) + seq!['.'] + (dotted(rest.drop_last()) + seq!['.']
                + label_text(rest.last())) =~= label_text(first) + seq!['.'] + dotted(
                rest.drop_last(),
            ) + seq!['.'] + label_text(rest.last()));
        }
    }
}

/// An uncompressed name whose labels are sound is read as its labels, and
/// the reader then stands behind its zero octet.
pub proof fn lemma_walk_labels(bytes: Seq<u8>, at: int, name: Seq<u8>, from: int, hops: nat)
    requires
        0 <= from <= name.len(),
        labels_sound(labels_from(name, from)),
        holds_at(bytes, at, labels_wire(labels_from(name, from))),
    ensures
        walk(bytes, at, hops) == found(labels_from(name, from), at + (name.len() - from) + 2),
    decreases name.len() - from,
{
    let end = label_end(name, from);
    lemma_label_has_no_dot(name, from);
    lemma_name_wire_len(name, from);
    let labels = labels_from(name, from);
    let label = labels[0];
    assert(1 <= label.len() <= MAX_LABEL);
    let rest = if end < name.len() {
        labels_from(name, end + 1)
    } else {
        Seq::empty()
    };
    assert(labels =~= seq![label] + rest);
    lemma_labels_wire_first(label, rest);
    let head = label_wire(label);
    lemma_holds_split(bytes, at, head, labels_wire(rest));
    lemma_holds_split(bytes, at, seq![label.len() as u8], label);
    assert(bytes[at + 0] == seq![label.len() as u8][0]);
    assert(bytes.subrange(at + 1, at + 1 + label.len()) =~= label);
    if end < name.len() {
        assert forall|i: int| 0 <= i < rest.len() implies 1 <= (#[trigger] rest[i]).len()
            <= MAX_LABEL by {
            assert(labels[i + 1] == rest[i]);
        }
        lemma_walk_labels(bytes, at + 1 + label.len(), name, end + 1, hops);
    } else {
        assert(bytes[at + 1 + label.len() + 0] == labels_wire(rest)[0]);
    }
}

/// The labels of an ASCII text, put together again with dots, are that text
/// with its capital letters made small.
pub proof fn lemma_dotted_ascii(name: Seq<u8>, from: int)
    requires
        0 <= from <= name.len(),
        is_ascii_octets(name),
    ensures
        dotted(labels_from(name, from)) == ascii_text(name.subrange(from, name.len() as int)),
    decreases name.len() - from,
{
    let end = label_end(name, from);
    lemma_label_has_no_dot(name, from);
    if end < name.len() {
        let label = name.subrange(from, end);
        let rest = labels_from(name, end + 1);
        lemma_dotted_ascii(name, end + 1);
        lemma_dotted_first(label, rest);
        lemma_label_end_skip(name, from, end);
        assert(is_ascii_octets(label));
        assert(ascii_text(label) + seq!['.'] + ascii_text(
            name.subrange(end + 1, name.len() as int),
        ) =~= ascii_text(name.subrange(from, name.len() as int)));
    } else {
        let label = name.subrange(from, name.len() as int);
        assert(seq![label] + Seq::<Seq<u8>>::empty() =~= seq![label]);
        assert(is_ascii_octets(label));
    }
}

/// A plain name that was written is the name that is read at the same
/// place, and the reader then stands behind it.
pub proof fn lemma_name_round_trip(bytes: Seq<u8>, at: int, text: Seq<char>)
    requires
        plain_name(text),
        holds_at(bytes, at, name_wire(encode_utf8(text))),
    ensures
        name_wire(encode_utf8(text)).len() == text.len() + 2,
        name_at(bytes, at) == found(text, at + text.len() + 2),
{
    let name = encode_utf8(text);
    is_ascii_chars_encode_utf8(text);
    assert(is_ascii_octets(name)) by {
        assert forall|i: int| 0 <= i < name.len() implies #[trigger] name[i] < 128 by {
            assert(text[i] as u8 == name[i]);
        }
    }
    lemma_name_wire_len(name, 0);
    lemma_walk_labels(bytes, at, name, 0, MAX_JUMPS as nat);
    lemma_dotted_ascii(name, 0);
    assert(name.subrange(0, name.len() as int) =~= name);
    assert(ascii_text(name) =~= text) by {
        assert forall|i: int| 0 <= i < text.len() implies #[trigger] ascii_text(name)[i]
            == text[i] by {
            assert(text[i] as u8 == name[i]);
            assert(lower_octet(name[i]) == name[i]);
            char_u32_cast(text[i], text[i] as u32);
        }
    }
}

/// Any text of ASCII characters with sound labels, once written, is read as
/// itself with its capital letters made small.
pub proof fn lemma_name_read_lowers(bytes: Seq<u8>, at: int, text: Seq<char>)
    requires
        is_ascii_chars(text),
        labels_sound(split_labels(encode_utf8(text))),
        holds_at(bytes, at, name_wire(encode_utf8(text))),
    ensures
        name_at(bytes, at) == found(ascii_text(encode_utf8(text)), at + text.len() + 2),
{
    let name = encode_utf8(text);
    is_ascii_chars_encode_utf8(text);
    assert(is_ascii_octets(name)) by {
        assert forall|i: int| 0 <= i < name.len() implies #[trigger] name[i] < 128 by {
            assert(text[i] as u8 == name[i]);
        }
    }
    lemma_walk_labels(bytes, at, name, 0, MAX_JUMPS as nat);
    lemma_dotted_ascii(name, 0);
    assert(name.subrange(0, name.len() as int) =~= name);
}

/// A name that was written into a buffer is read from it as its text with
/// the capital letters made small, and the reader then stands behind it.
pub proof fn lemma_written_name_is_read(bytes: Seq<u8>, at: int, text: Seq<char>)
    requires
        is_ascii_chars(text),
        labels_sound(split_labels(encode_utf8(text))),
        0 <= at,
        at + text.len() + 2 <= bytes.len(),
    ensures
        name_at(splice(bytes, at, name_wire(encode_utf8(text))), at) == found(
            ascii_text(encode_utf8(text)),
            at + text.len() + 2,
        ),
{
    is_ascii_chars_encode_utf8(text);
    lemma_name_wire_len(encode_utf8(text), 0);
    lemma_splice_holds(bytes, at, name_wire(encode_utf8(text)));
    lemma_name_read_lowers(
        splice(bytes, at, name_wire(encode_utf8(text))),
        at,
        text,
    );
}

/// A pointer that points at itself is never read as a name, however many
/// pointers the reader is ready to follow.
pub proof fn lemma_pointer_to_itself(bytes: Seq<u8>, at: int, hops: nat)
    requires
        0 <= at,
        at + 1 < bytes.len(),
        bytes[at] >= 0xC0,
        pointer_target(bytes[at], bytes[at + 1]) == at,
    ensures
        walk(bytes, at, hops) == Err::<(Seq<Seq<u8>>, int), CodecError>(CodecError::TooManyJumps),
    decreases hops,
{
    if hops > 0 {
        lemma_pointer_to_itself(bytes, at, (hops - 1) as nat);
    }
}

/// `String::push` puts one character behind what the text holds. This is
/// what the documentation of std says; it is believed here, not proved.
pub assume_specification[ String::push ](text: &mut String, c: char)
    ensures
        final(text)@ == old(text)@.push(c),
;

/// Calls `String::from_utf8_lossy`, which reads octets as UTF-8 and puts
/// U+FFFD where they are none. The contract only gives a name to what it
/// returns: that the same octets always give the same text is believed
/// here, not proved.
#[verifier::external_body]
fn lossy(octets: &[u8]) -> (text: String)
    ensures
        text@ == lossy_text(octets@),
{
    String::from_utf8_lossy(octets).into_owned()
}

/// Calls `str::to_lowercase`, Unicode's lower-casing. The contract only
/// gives a name to what it returns: that the same text always gives the
/// same text is believed here, not proved.
#[verifier::external_body]
fn lowercase(text: &str) -> (lower: String)
    ensures
        lower@ == lowercase_text(text@),
{
    text.to_lowercase()
}

/// Whether every octet is an ASCII character.
pub fn all_ascii(octets: &[u8]) -> (ascii: bool)
    ensures
        ascii == is_ascii_octets(octets@),
{
    let mut i: usize = 0;
    while i < octets.len()
        invariant
            i <= octets@.len(),
            forall|k: int| 0 <= k < i ==> #[trigger] octets@[k] < 128,
        decreases octets@.len() - i,
    {
        if octets[i] >= 128 {
            return false;
        }
        i += 1;
    }
    true
}

/// The text of one label.
pub fn decode_label(octets: &[u8]) -> (text: String)
    ensures
        text@ == label_text(octets@),
{
    if !all_ascii(octets) {
        let raw = lossy(octets);
        return lowercase(raw.as_str());
    }
    let mut text = String::new();
    let mut i: usize = 0;
    while i < octets.len()
        invariant
            i <= octets@.len(),
            is_ascii_octets(octets@),
            text@ == ascii_text(octets@.subrange(0, i as int)),
        decreases octets@.len() - i,
    {
        let octet = octets[i];
        let lower: u8 = if 0x41 <= octet && octet <= 0x5A {
            octet + 32
        } else {
            octet
        };
        text.push(lower as char);
        i += 1;
        assert(text@ =~= ascii_text(octets@.subrange(0, i as int)));
    }
    assert(octets@.subrange(0, i as int) =~= octets@);
    text
}

/// Puts the text of one more label behind `name`, after a dot unless the
/// label is the first.
pub fn push_label(name: &mut String, first: bool, text: &str)
    ensures
        final(name)@ == if first {
            old(name)@ + text@
        } else {
            old(name)@ + seq!['.'] + text@
        },
{
    if !first {
        name.push('.');
    }
    name.append(text);
}

/// Whether no label of `name` is too long for a length octet.
pub fn name_fits(name: &[u8]) -> (fits: bool)
    ensures
        fits == labels_fit(split_labels(name@)),
{
    let mut start: usize = 0;
    let mut i: usize = 0;
    while i < name.len()
        invariant
            start <= i <= name@.len(),
            i - start <= MAX_LABEL,
            forall|k: int| start <= k < i ==> name@[k] != DOT,
            labels_fit(split_labels(name@)) == labels_fit(labels_from(name@, start as int)),
        decreases name@.len() - i,
    {
        proof {
            lemma_label_end_skip(name@, start as int, i as int);
        }
        if name[i] == DOT {
            proof {
                lemma_labels_wire_first(
                    name@.subrange(start as int, i as int),
                    labels_from(name@, i + 1),
                );
            }
            start = i + 1;
        } else if i - start == MAX_LABEL {
            proof {
                lemma_label_end_skip(name@, start as int, i + 1);
                assert(labels_from(name@, start as int)[0].len() > MAX_LABEL);
            }
            return false;
        }
        i += 1;
    }
    proof {
        lemma_label_end_skip(name@, start as int, i as int);
        assert(labels_from(name@, start as int)[0].len() <= MAX_LABEL);
    }
    true
}

/// Whether `name` ends with `tail`.
pub fn ends_with(name: &str, tail: &str) -> (yes: bool)
    ensures
        yes == name_ends_with(name@, tail@),
{
    let whole = name.as_bytes();
    let end = tail.as_bytes();
    if end.len() > whole.len() {
        return false;
    }
    let shift = whole.len() - end.len();
    let mut i: usize = 0;
    while i < end.len()
        invariant
            i <= end@.len(),
            whole@ == encode_utf8(name@),
            end@ == encode_utf8(tail@),
            shift + end@.len() == whole@.len() <= usize::MAX,
            forall|k: int| 0 <= k < i ==> whole@[shift + k] == end@[k],
        decreases end@.len() - i,
    {
        if whole[shift + i] != end[i] {
            assert(whole@.subrange(shift as int, whole@.len() as int)[i as int] != end@[i as int]);
            return false;
        }
        i += 1;
    }
    assert(whole@.subrange(shift as int, whole@.len() as int) =~= end@);
    true
}

} // verus!
