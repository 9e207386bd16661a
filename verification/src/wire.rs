//! Domain names in DNS wire format: each label behind its length, and a zero
//! byte at the end.
use crate::text;
use vstd::prelude::*;
use vstd::utf8::{decode_utf8, encode_utf8, valid_utf8};

verus! {

/// A label takes at most this many bytes.
pub const MAX_LABEL_LEN: usize = 63;

/// A wire-format name takes at most this many bytes.
pub const MAX_WIRE_LEN: usize = 255;

/// A label that wire format can hold: not empty, and not over 63 bytes long.
pub open spec fn fits(label: Seq<char>) -> bool {
    0 < label.len() && encode_utf8(label).len() <= MAX_LABEL_LEN
}

/// The labels that wire format can hold, in order.
pub open spec fn fitting(labels: Seq<Seq<char>>) -> Seq<Seq<char>>
    decreases labels.len(),
{
    if labels.len() == 0 {
        labels
    } else if fits(labels[0]) {
        seq![labels[0]] + fitting(labels.drop_first())
    } else {
        fitting(labels.drop_first())
    }
}

/// The labels of a domain name as it is looked up: of the name in lower case,
/// without the white space around it.
pub open spec fn name_labels(domain: Seq<char>) -> Seq<Seq<char>> {
    fitting(text::split(text::lowercase(text::trimmed(domain)), '.'))
}

/// A label in wire format: its length in bytes, then its bytes.
pub open spec fn encode_label(label: Seq<char>) -> Seq<u8> {
    seq![encode_utf8(label).len() as u8] + encode_utf8(label)
}

/// The labels in wire format, one behind the other, and the zero byte that ends
/// the name.
pub open spec fn encode_labels(labels: Seq<Seq<char>>) -> Seq<u8>
    decreases labels.len(),
{
    if labels.len() == 0 {
        seq![0]
    } else {
        encode_label(labels[0]) + encode_labels(labels.drop_first())
    }
}

/// A domain name in wire format.
pub open spec fn domain_wire(domain: Seq<char>) -> Seq<u8> {
    encode_labels(name_labels(domain))
}

/// The labels, as bytes, that can be read off the front of a wire-format name:
/// up to the zero byte that ends it, or to a length that leads past the end.
pub open spec fn wire_labels(wire: Seq<u8>) -> Seq<Seq<u8>>
    decreases wire.len(),
{
    if wire.len() == 0 || wire[0] == 0 || 1 + wire[0] > wire.len() {
        Seq::empty()
    } else {
        seq![wire.subrange(1, 1 + wire[0])] + wire_labels(wire.skip(1 + wire[0]))
    }
}

/// The text of a label: `?` where its bytes are not UTF-8.
pub open spec fn label_text(label: Seq<u8>) -> Seq<char> {
    if valid_utf8(label) {
        decode_utf8(label)
    } else {
        seq!['?']
    }
}

/// The text of each label.
pub open spec fn label_texts(labels: Seq<Seq<u8>>) -> Seq<Seq<char>> {
    labels.map_values(|label: Seq<u8>| label_text(label))
}

/// A wire-format name as text: its labels with dots between them.
pub open spec fn wire_text(wire: Seq<u8>) -> Seq<char> {
    text::join(label_texts(wire_labels(wire)), seq!['.'])
}

/// Appends a label in wire format, unless wire format cannot hold it.
fn push_label(wire: &mut Vec<u8>, label: &str)
    ensures
        final(wire)@ == old(wire)@ + (if fits(label@) {
            encode_label(label@)
        } else {
            Seq::empty()
        }),
{
    let bytes: &[u8] = label.as_bytes();
    let len: usize = bytes.len();
    if label.is_empty() || len > MAX_LABEL_LEN {
        return ;
    }
    wire.push(len as u8);
    wire.extend_from_slice(bytes);
    assert(wire@ =~= old(wire)@ + encode_label(label@));
}

/// Puts the labels of a name, which is in lower case and without white space
/// around it, into wire format. Labels that are empty or over 63 bytes long are
/// left out.
pub fn lower_to_wire(lower: &str) -> (wire: Vec<u8>)
    ensures
        wire@ == encode_labels(fitting(text::split(lower@, '.'))),
{
    let mut wire: Vec<u8> = Vec::new();
    let mut rest: &str = lower;
    proof {
        reveal_strlit(".");
        assert("."@ =~= seq!['.']);
    }
    loop
        invariant_except_break
            "."@ == seq!['.'],
            encode_labels(fitting(text::split(lower@, '.'))) == wire@ + encode_labels(fitting(text::split(rest@, '.'))),
        ensures
            wire@.push(0) == encode_labels(fitting(text::split(lower@, '.'))),
        decreases rest@.len(),
    {
        let (label, behind) = text::first_piece(rest, ".", Ghost('.'));
        let ghost before = wire@;
        push_label(&mut wire, label);
        match behind {
            Some(next) => {
                proof {
                    let labels = text::split(rest@, '.');
                    assert(labels[0] == label@);
                    assert(labels.drop_first() =~= text::split(next@, '.'));
                    lemma_encode_first(labels);
                    assert(wire@ + encode_labels(fitting(text::split(next@, '.'))) =~= before
                        + encode_labels(fitting(labels)));
                }
                rest = next;
            },
            None => {
                proof {
                    let labels = text::split(rest@, '.');
                    assert(labels[0] == label@);
                    assert(labels.drop_first() =~= Seq::empty());
                    lemma_encode_first(labels);
                    assert(wire@.push(0) =~= before + encode_labels(fitting(labels)));
                }
                break ;
            },
        }
    }
    wire.push(0);
    wire
}

/// Convert a domain name string to wire format.
///
/// The white space around the name goes, upper case becomes lower case, and
/// labels that are empty or over 63 bytes long are left out.
#[must_use]
pub fn domain_to_wire(domain: &str) -> (wire: Vec<u8>)
    ensures
        wire@ == domain_wire(domain@),
{
    let lower: String = domain.trim().to_lowercase();
    lower_to_wire(lower.as_str())
}

/// How the first of the labels enters the encoding.
proof fn lemma_encode_first(labels: Seq<Seq<char>>)
    requires
        labels.len() > 0,
    ensures
        encode_labels(fitting(labels)) == (if fits(labels[0]) {
            encode_label(labels[0])
        } else {
            Seq::empty()
        }) + encode_labels(fitting(labels.drop_first())),
{
    let rest = fitting(labels.drop_first());
    if fits(labels[0]) {
        assert((seq![labels[0]] + rest).drop_first() =~= rest);
    } else {
        assert(Seq::empty() + encode_labels(rest) =~= encode_labels(rest));
    }
}

/// The text of a label that is not empty is not empty.
proof fn lemma_label_text_not_empty(label: Seq<u8>)
    requires
        label.len() > 0,
    ensures
        label_text(label).len() > 0,
{
}

/// `join` with one piece more.
proof fn lemma_join_push(pieces: Seq<Seq<char>>, piece: Seq<char>)
    ensures
        text::join(pieces.push(piece), seq!['.']) == if pieces.len() == 0 {
            piece
        } else {
            text::join(pieces, seq!['.']).push('.') + piece
        },
{
    assert(pieces.push(piece).drop_last() =~= pieces);
    if pieces.len() > 0 {
        assert(text::join(pieces, seq!['.']) + seq!['.'] =~= text::join(pieces, seq!['.']).push(
            '.',
        ));
    }
}

/// Convert a wire-format domain name back to a human-readable string.
///
/// Reading ends at the zero byte, and before a label that the bytes do not hold
/// in full; a label that is not UTF-8 reads `?`.
#[must_use]
pub fn wire_to_domain(wire: &[u8]) -> (domain: String)
    ensures
        domain@ == wire_text(wire@),
{
    let mut s: String = String::new();
    let mut i: usize = 0;
    let ghost mut done: Seq<Seq<u8>> = Seq::empty();
    proof {
        assert(wire@.skip(0) =~= wire@);
        assert(label_texts(done) =~= Seq::empty());
    }
    while i < wire.len()
        invariant
            i <= wire@.len(),
            wire_labels(wire@) == done + wire_labels(wire@.skip(i as int)),
            s@ == text::join(label_texts(done), seq!['.']),
            s@.len() == 0 <==> done.len() == 0,
        ensures
            s@ == wire_text(wire@),
        decreases wire@.len() - i,
    {
        let byte: u8 = wire[i];
        let label_len: usize = byte as usize;
        let ghost left = wire@.skip(i as int);
        assert(left[0] == byte);
        if label_len == 0 || label_len >= wire.len() - i {
            assert(done + Seq::empty() =~= done);
            break ;
        }
        let start: usize = i + 1;
        let end: usize = start + label_len;
        let label: &[u8] = vstd::slice::slice_subrange(wire, start, end);
        if !s.as_str().is_empty() {
            s.push('.');
        }
        match std::str::from_utf8(label) {
            Ok(t) => s.push_str(t),
            Err(_) => s.push('?'),
        }
        proof {
            let texts = label_texts(done);
            assert(label@ =~= left.subrange(1, 1 + byte));
            assert(left.skip(1 + byte) =~= wire@.skip(end as int));
            assert(done + (seq![label@] + wire_labels(wire@.skip(end as int))) =~= done.push(label@)
                + wire_labels(wire@.skip(end as int)));
            lemma_join_push(texts, label_text(label@));
            assert(label_texts(done.push(label@)) =~= texts.push(label_text(label@)));
            lemma_label_text_not_empty(label@);
            assert(Seq::<char>::empty() + label_text(label@) =~= label_text(label@));
            assert(s@ =~= text::join(label_texts(done.push(label@)), seq!['.']));
            done = done.push(label@);
        }
        i = end;
    }
    s
}

/// The bytes of each label.
pub open spec fn label_bytes(labels: Seq<Seq<char>>) -> Seq<Seq<u8>> {
    labels.map_values(|label: Seq<char>| encode_utf8(label))
}

/// Every label fits.
pub open spec fn all_fit(labels: Seq<Seq<char>>) -> bool {
    forall|i: int| 0 <= i < labels.len() ==> fits(#[trigger] labels[i])
}

/// The labels of an encoding read back, whatever follows it.
proof fn lemma_labels_read_back(labels: Seq<Seq<char>>, trailer: Seq<u8>)
    requires
        all_fit(labels),
    ensures
        wire_labels(encode_labels(labels) + trailer) == label_bytes(labels),
    decreases labels.len(),
{
    let wire = encode_labels(labels) + trailer;
    if labels.len() == 0 {
        assert(label_bytes(labels) =~= Seq::empty());
    } else {
        let first = labels[0];
        let rest = labels.drop_first();
        let bytes = encode_utf8(first);
        assert(fits(first));
        text::lemma_chars_within_bytes(first);
        assert forall|i: int| 0 <= i < rest.len() implies fits(#[trigger] rest[i]) by {
            assert(rest[i] == labels[i + 1]);
        }
        lemma_labels_read_back(rest, trailer);
        assert(wire[0] == bytes.len());
        assert(wire.subrange(1, 1 + wire[0]) =~= bytes);
        assert(wire.skip(1 + wire[0]) =~= encode_labels(rest) + trailer);
        assert(label_bytes(labels) =~= seq![bytes] + label_bytes(rest));
    }
}

/// The text of an encoded label is the label.
proof fn lemma_texts_of_bytes(labels: Seq<Seq<char>>)
    ensures
        label_texts(label_bytes(labels)) == labels,
{
    assert forall|i: int| 0 <= i < labels.len() implies label_text(
        encode_utf8(#[trigger] labels[i]),
    ) == labels[i] by {
        vstd::utf8::encode_utf8_valid_utf8(labels[i]);
        vstd::utf8::encode_utf8_decode_utf8(labels[i]);
    }
    assert(label_texts(label_bytes(labels)) =~= labels);
}

/// Only labels that fit are kept, and where all do, all are.
proof fn lemma_fitting(labels: Seq<Seq<char>>)
    ensures
        all_fit(fitting(labels)),
        all_fit(labels) ==> fitting(labels) == labels,
    decreases labels.len(),
{
    if labels.len() > 0 {
        let rest = labels.drop_first();
        lemma_fitting(rest);
        if all_fit(labels) {
            assert(fits(labels[0]));
            assert forall|i: int| 0 <= i < rest.len() implies fits(#[trigger] rest[i]) by {
                assert(rest[i] == labels[i + 1]);
            }
            assert(seq![labels[0]] + rest =~= labels);
        }
    }
}

/// A name in wire format reads back as its labels, in lower case, with dots
/// between them, whatever follows it.
pub proof fn law_wire_reads_back(domain: Seq<char>, trailer: Seq<u8>)
    ensures
        wire_text(domain_wire(domain) + trailer) == text::join(name_labels(domain), seq!['.']),
{
    let labels = name_labels(domain);
    lemma_fitting(text::split(text::lowercase(text::trimmed(domain)), '.'));
    lemma_labels_read_back(labels, trailer);
    lemma_texts_of_bytes(labels);
}

/// Of a name in wire format that is cut off behind `n` bytes, the labels that are
/// not cut read back.
pub proof fn law_cut_wire_reads_back(domain: Seq<char>, n: int) -> (k: int)
    requires
        0 <= n <= domain_wire(domain).len(),
    ensures
        0 <= k <= name_labels(domain).len(),
        encode_labels(name_labels(domain).take(k)).len() - 1 <= n,
        k < name_labels(domain).len() ==> n < encode_labels(
            name_labels(domain).take(k + 1),
        ).len() - 1,
        n >= domain_wire(domain).len() - 1 ==> k == name_labels(domain).len(),
        wire_text(domain_wire(domain).take(n)) == text::join(
            name_labels(domain).take(k),
            seq!['.'],
        ),
{
    let labels = name_labels(domain);
    lemma_fitting(text::split(text::lowercase(text::trimmed(domain)), '.'));
    let k = lemma_cut_labels_read_back(labels, n);
    lemma_texts_of_bytes(labels.take(k));
    k
}

/// The labels of an encoding that is cut off behind `n` bytes read back, up to
/// the one that is cut.
proof fn lemma_cut_labels_read_back(labels: Seq<Seq<char>>, n: int) -> (k: int)
    requires
        all_fit(labels),
        0 <= n <= encode_labels(labels).len(),
    ensures
        0 <= k <= labels.len(),
        encode_labels(labels.take(k)).len() - 1 <= n,
        k < labels.len() ==> n < encode_labels(labels.take(k + 1)).len() - 1,
        n >= encode_labels(labels).len() - 1 ==> k == labels.len(),
        wire_labels(encode_labels(labels).take(n)) == label_bytes(labels.take(k)),
    decreases labels.len(),
{
    let cut = encode_labels(labels).take(n);
    assert(label_bytes(labels.take(0)) =~= Seq::empty());
    if labels.len() == 0 || n < 1 + encode_utf8(labels[0]).len() {
        if labels.len() > 0 {
            assert(fits(labels[0]));
            lemma_encoding_ends(labels.drop_first());
            assert(labels.take(1).drop_first() =~= Seq::empty());
            assert(encode_labels(labels.take(1)).len() == encode_utf8(labels[0]).len() + 2) by {
                reveal_with_fuel(encode_labels, 2);
            }
        }
        0
    } else {
        let first = labels[0];
        let rest = labels.drop_first();
        let bytes = encode_utf8(first);
        assert(fits(first));
        text::lemma_chars_within_bytes(first);
        assert forall|i: int| 0 <= i < rest.len() implies fits(#[trigger] rest[i]) by {
            assert(rest[i] == labels[i + 1]);
        }
        let k = lemma_cut_labels_read_back(rest, n - 1 - bytes.len());
        assert(cut.subrange(1, 1 + cut[0]) =~= bytes);
        assert(cut.skip(1 + cut[0]) =~= encode_labels(rest).take(n - 1 - bytes.len()));
        assert(labels.take(k + 1).drop_first() =~= rest.take(k));
        assert(label_bytes(labels.take(k + 1)) =~= seq![bytes] + label_bytes(rest.take(k)));
        if k < rest.len() {
            assert(labels.take(k + 2).drop_first() =~= rest.take(k + 1));
        }
        k + 1
    }
}

/// A name without white space around it, in lower case, all of whose labels are
/// of a length that wire format can hold.
pub open spec fn is_normal(domain: Seq<char>) -> bool {
    text::lowercase(text::trimmed(domain)) == domain && all_fit(text::split(domain, '.'))
}

/// `wire_to_domain` undoes `domain_to_wire` on a name in normal form.
pub proof fn law_wire_to_domain_undoes_domain_to_wire(domain: Seq<char>)
    requires
        is_normal(domain),
    ensures
        wire_text(domain_wire(domain)) == domain,
{
    law_wire_reads_back(domain, Seq::empty());
    assert(domain_wire(domain) + Seq::empty() =~= domain_wire(domain));
    lemma_fitting(text::split(domain, '.'));
    text::law_join_undoes_split(domain, '.');
}

/// A zero byte ends every name in wire format.
pub proof fn law_wire_ends_with_zero(domain: Seq<char>)
    ensures
        domain_wire(domain).len() >= 1,
        domain_wire(domain).last() == 0,
{
    lemma_encoding_ends(name_labels(domain));
}

proof fn lemma_encoding_ends(labels: Seq<Seq<char>>)
    ensures
        encode_labels(labels).len() >= 1,
        encode_labels(labels).last() == 0,
    decreases labels.len(),
{
    if labels.len() > 0 {
        lemma_encoding_ends(labels.drop_first());
    }
}

/// White space around a name does not matter.
pub proof fn law_white_space_does_not_matter(domain: Seq<char>)
    ensures
        domain_wire(text::trimmed(domain)) == domain_wire(domain),
{
    text::lemma_trimmed_twice(domain);
}

/// The case of the letters of an ASCII name does not matter.
pub proof fn law_ascii_case_does_not_matter(a: Seq<char>, b: Seq<char>)
    requires
        vstd::utf8::is_ascii_chars(a),
        vstd::utf8::is_ascii_chars(b),
        text::lowercase(a) == text::lowercase(b),
    ensures
        domain_wire(a) == domain_wire(b),
{
    text::lemma_trim_then_lower(a);
    text::lemma_trim_then_lower(b);
}

/// A dot at the end of an ASCII name does not matter, unless it stands behind
/// white space.
pub proof fn law_final_dot_does_not_matter(domain: Seq<char>)
    requires
        vstd::utf8::is_ascii_chars(domain),
        domain.len() == 0 || !text::is_white_space(domain.last()),
    ensures
        domain_wire(domain.push('.')) == domain_wire(domain),
{
    let name = text::trimmed(domain);
    text::lemma_trimmed_push(domain, '.');
    text::lemma_trimmed_is_ascii(domain);
    let lower = text::lowercase(name);
    assert(text::lowercase(name.push('.')) =~= lower.push('.'));
    lemma_fitting_final_dot(lower);
}

/// The piece behind a final dot is empty, and does not fit.
proof fn lemma_fitting_final_dot(s: Seq<char>)
    ensures
        fitting(text::split(s.push('.'), '.')) == fitting(text::split(s, '.')),
{
    text::lemma_split_push_separator(s, '.');
    lemma_fitting_push_empty(text::split(s, '.'));
}

proof fn lemma_fitting_push_empty(labels: Seq<Seq<char>>)
    ensures
        fitting(labels.push(Seq::empty())) == fitting(labels),
    decreases labels.len(),
{
    let more = labels.push(Seq::<char>::empty());
    if labels.len() == 0 {
        assert(more.drop_first() =~= labels);
    } else {
        lemma_fitting_push_empty(labels.drop_first());
        assert(more.drop_first() =~= labels.drop_first().push(Seq::empty()));
    }
}

/// The first label of a name in lower case goes into wire format as its length and
/// its bytes if it has 1 to 63 of them, and is left out otherwise. The rest follows
/// it as if it stood alone, and a zero byte follows the last label.
pub proof fn law_name_is_encoded_label_by_label(label: Seq<char>, rest: Seq<char>)
    requires
        !label.contains('.'),
    ensures
        ({
            let bytes = encode_utf8(label);
            let head = if 1 <= bytes.len() <= 63 {
                seq![bytes.len() as u8] + bytes
            } else {
                Seq::empty()
            };
            &&& encode_labels(fitting(text::split(label, '.'))) == head + seq![0u8]
            &&& encode_labels(fitting(text::split(label + seq!['.'] + rest, '.'))) == head
                + encode_labels(fitting(text::split(rest, '.')))
        }),
{
    text::lemma_chars_within_bytes(label);
    text::lemma_split_whole(label, '.');
    text::lemma_split_at_first(label, '.', rest);
    let one = seq![label];
    let all = seq![label] + text::split(rest, '.');
    lemma_encode_first(one);
    lemma_encode_first(all);
    assert(one.drop_first() =~= Seq::empty());
    assert(all.drop_first() =~= text::split(rest, '.'));
    if label.len() == 0 {
        assert(encode_utf8(label).len() == 0);
    }
}

/// The first label of a domain name, in lower case and without the white space
/// around it, goes into wire format as its length and its bytes if it has 1 to 63 of
/// them, and is left out otherwise.
pub proof fn law_domain_is_encoded_label_by_label(
    domain: Seq<char>,
    label: Seq<char>,
    rest: Seq<char>,
)
    requires
        !label.contains('.'),
    ensures
        ({
            let lower = text::lowercase(text::trimmed(domain));
            let bytes = encode_utf8(label);
            let head = if 1 <= bytes.len() <= 63 {
                seq![bytes.len() as u8] + bytes
            } else {
                Seq::empty()
            };
            &&& lower == label ==> domain_wire(domain) == head + seq![0u8]
            &&& lower == label + seq!['.'] + rest ==> domain_wire(domain) == head + encode_labels(
                fitting(text::split(rest, '.')),
            )
        }),
{
    law_name_is_encoded_label_by_label(label, rest);
}

/// A label of 1 to 63 ASCII characters and a dot in front of a domain name put the
/// length of the label and its bytes, in lower case, in front of the wire format of
/// the name, whatever the characters are.
pub proof fn law_label_in_front_is_kept(label: Seq<char>, rest: Seq<char>)
    requires
        vstd::utf8::is_ascii_chars(label),
        vstd::utf8::is_ascii_chars(rest),
        1 <= label.len() <= 63,
        !label.contains('.'),
        !text::is_white_space(label[0]),
        rest.len() > 0 ==> !text::is_white_space(rest[0]) && !text::is_white_space(rest.last()),
    ensures
        domain_wire(label + seq!['.'] + rest) == seq![label.len() as u8] + Seq::new(
            label.len(),
            |i: int|
                if 'A' <= label[i] <= 'Z' {
                    (label[i] as u8 + 32) as u8
                } else {
                    label[i] as u8
                },
        ) + domain_wire(rest),
{
    let domain = label + seq!['.'] + rest;
    let lower = text::lowercase(label);
    let none = Seq::<char>::empty();
    assert(none + domain + none =~= domain);
    assert(none + rest + none =~= rest);
    text::law_trimming_takes_white_space_alone(none, domain, none);
    text::law_trimming_takes_white_space_alone(none, rest, none);
    assert(vstd::utf8::is_ascii_chars(domain));
    assert(text::lowercase(domain) =~= lower + seq!['.'] + text::lowercase(rest));
    assert(!lower.contains('.')) by {
        if lower.contains('.') {
            let i = lower.index_of('.');
            assert(label[i] == '.');
        }
    }
    assert(vstd::utf8::is_ascii_chars(lower));
    vstd::utf8::is_ascii_chars_encode_utf8(lower);
    law_domain_is_encoded_label_by_label(domain, lower, text::lowercase(rest));
    assert(encode_utf8(lower) =~= Seq::new(
        label.len(),
        |i: int|
            if 'A' <= label[i] <= 'Z' {
                (label[i] as u8 + 32) as u8
            } else {
                label[i] as u8
            },
    )) by {
        assert forall|i: int| 0 <= i < label.len() implies encode_utf8(lower)[i] == (if 'A'
            <= label[i] <= 'Z' {
            (label[i] as u8 + 32) as u8
        } else {
            label[i] as u8
        }) by {
            assert(lower[i] as u8 == encode_utf8(lower)[i]);
            assert('\0' <= label[i] <= '\u{7f}');
        }
    }
}

/// A label reads as its text, or as `?` where its bytes are not UTF-8, and what
/// follows it reads as it would alone, behind a dot if there is anything to read.
pub proof fn law_wire_is_read_label_by_label(label: Seq<u8>, rest: Seq<u8>)
    requires
        1 <= label.len() <= 255,
    ensures
        ({
            let shown = if valid_utf8(label) {
                decode_utf8(label)
            } else {
                seq!['?']
            };
            wire_text(seq![label.len() as u8] + label + rest) == if wire_text(rest).len() == 0 {
                shown
            } else {
                shown + seq!['.'] + wire_text(rest)
            }
        }),
{
    let wire = seq![label.len() as u8] + label + rest;
    let tail = wire_labels(rest);
    assert(wire.subrange(1, 1 + wire[0]) =~= label);
    assert(wire.skip(1 + wire[0]) =~= rest);
    assert(wire_labels(wire) =~= seq![label] + tail);
    let texts = label_texts(wire_labels(wire));
    assert(texts =~= seq![label_text(label)] + label_texts(tail));
    assert(texts.drop_first() =~= label_texts(tail));
    text::lemma_join_front(texts, seq!['.']);
    if tail.len() > 0 {
        lemma_labels_not_empty(rest);
        text::lemma_join_front(label_texts(tail), seq!['.']);
        lemma_label_text_not_empty(tail[0]);
    } else {
        assert(label_texts(tail).len() == 0);
    }
}

/// No label that is read is empty.
proof fn lemma_labels_not_empty(wire: Seq<u8>)
    requires
        wire_labels(wire).len() > 0,
    ensures
        wire_labels(wire)[0].len() > 0,
{
}

/// Nothing is read where there is no byte, at a zero byte, and at a label that is
/// longer than what is left.
pub proof fn law_reading_stops(wire: Seq<u8>)
    requires
        wire.len() == 0 || wire[0] == 0 || wire.len() <= wire[0],
    ensures
        wire_text(wire) == Seq::<char>::empty(),
{
    assert(label_texts(wire_labels(wire)).len() == 0);
}

} // verus!
