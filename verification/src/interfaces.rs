//! The network interfaces to choose from, and those chosen.
use vstd::prelude::*;
use vstd::relations::{sorted_by, total_ordering};
use vstd::utf8::{decode_utf8, encode_utf8, valid_utf8};

verus! {

/// The strings as sequences of characters.
pub open spec fn texts(strings: Seq<String>) -> Seq<Seq<char>> {
    strings.map_values(|s: String| s@)
}

/// Lexicographic order of byte sequences.
pub open spec fn bytes_le(a: Seq<u8>, b: Seq<u8>) -> bool
    decreases a.len(),
{
    if a.len() == 0 {
        true
    } else if b.len() == 0 {
        false
    } else {
        a[0] < b[0] || (a[0] == b[0] && bytes_le(a.drop_first(), b.drop_first()))
    }
}

/// The order of strings: the lexicographic order of their bytes.
pub open spec fn text_le(a: Seq<char>, b: Seq<char>) -> bool {
    bytes_le(encode_utf8(a), encode_utf8(b))
}

/// Each text is before those that follow it, or equal to them.
pub open spec fn is_sorted(list: Seq<Seq<char>>) -> bool {
    forall|i: int, j: int|
        0 <= i <= j < list.len() ==> text_le(#[trigger] list[i], #[trigger] list[j])
}

/// The name of an interface to list: text, and not the loopback interface.
pub open spec fn is_listed(name: Seq<u8>) -> bool {
    valid_utf8(name) && decode_utf8(name) != "lo"@
}

/// The names to list, as text.
pub open spec fn listed_names(names: Seq<Seq<u8>>) -> Seq<Seq<char>>
    decreases names.len(),
{
    if names.len() == 0 {
        Seq::empty()
    } else if is_listed(names.last()) {
        listed_names(names.drop_last()).push(decode_utf8(names.last()))
    } else {
        listed_names(names.drop_last())
    }
}

/// `list` holds the names to list out of `names`, each as often as there, in
/// order.
pub open spec fn is_listing(list: Seq<Seq<char>>, names: Seq<Seq<u8>>) -> bool {
    is_sorted(list) && list.to_multiset() == listed_names(names).to_multiset()
}

/// The byte vectors as sequences.
pub open spec fn raw_names(names: Seq<Vec<u8>>) -> Seq<Seq<u8>> {
    names.map_values(|name: Vec<u8>| name@)
}

proof fn lemma_bytes_le_reflexive(a: Seq<u8>)
    ensures
        bytes_le(a, a),
    decreases a.len(),
{
    if a.len() > 0 {
        lemma_bytes_le_reflexive(a.drop_first());
    }
}

proof fn lemma_bytes_le_total(a: Seq<u8>, b: Seq<u8>)
    ensures
        bytes_le(a, b) || bytes_le(b, a),
    decreases a.len(),
{
    if a.len() > 0 && b.len() > 0 {
        lemma_bytes_le_total(a.drop_first(), b.drop_first());
    }
}

proof fn lemma_bytes_le_transitive(a: Seq<u8>, b: Seq<u8>, c: Seq<u8>)
    requires
        bytes_le(a, b),
        bytes_le(b, c),
    ensures
        bytes_le(a, c),
    decreases a.len(),
{
    if a.len() > 0 && a[0] == b[0] && b[0] == c[0] {
        lemma_bytes_le_transitive(a.drop_first(), b.drop_first(), c.drop_first());
    }
}

proof fn lemma_bytes_le_antisymmetric(a: Seq<u8>, b: Seq<u8>)
    requires
        bytes_le(a, b),
        bytes_le(b, a),
    ensures
        a == b,
    decreases a.len(),
{
    if a.len() > 0 {
        lemma_bytes_le_antisymmetric(a.drop_first(), b.drop_first());
        assert(a =~= seq![a[0]] + a.drop_first());
        assert(b =~= seq![b[0]] + b.drop_first());
    } else {
        assert(a =~= b);
    }
}

/// Whether `a` is before `b`, or equal to it.
pub fn text_at_most(a: &str, b: &str) -> (le: bool)
    ensures
        le == text_le(a@, b@),
{
    let x: &[u8] = a.as_bytes();
    let y: &[u8] = b.as_bytes();
    let mut i: usize = 0;
    proof {
        assert(x@.skip(0) =~= x@);
        assert(y@.skip(0) =~= y@);
    }
    while i < x.len()
        invariant
            x@ == encode_utf8(a@),
            y@ == encode_utf8(b@),
            i <= x@.len(),
            i <= y@.len(),
            bytes_le(x@, y@) == bytes_le(x@.skip(i as int), y@.skip(i as int)),
        decreases x@.len() - i,
    {
        proof {
            assert(x@.skip(i as int).drop_first() =~= x@.skip(i + 1));
        }
        if i == y.len() {
            return false;
        }
        proof {
            assert(y@.skip(i as int).drop_first() =~= y@.skip(i + 1));
        }
        if x[i] != y[i] {
            return x[i] < y[i];
        }
        i += 1;
    }
    true
}

/// Puts a name into a sorted list, at its place.
fn insert_sorted(list: &mut Vec<String>, name: String)
    requires
        is_sorted(texts(old(list)@)),
    ensures
        is_sorted(texts(final(list)@)),
        texts(final(list)@).to_multiset() == texts(old(list)@).to_multiset().insert(name@),
{
    let ghost before = texts(list@);
    let ghost added = name@;
    let mut at: usize = 0;
    while at < list.len() && text_at_most(list[at].as_str(), name.as_str())
        invariant
            at <= list@.len(),
            before == texts(list@),
            added == name@,
            forall|j: int| 0 <= j < at ==> text_le(#[trigger] before[j], added),
        ensures
            at <= list@.len(),
            forall|j: int| 0 <= j < at ==> text_le(#[trigger] before[j], added),
            at == list@.len() || !text_le(before[at as int], added),
        decreases list@.len() - at,
    {
        at += 1;
    }
    list.insert(at, name);
    proof {
        let after = texts(list@);
        assert(after =~= before.insert(at as int, added));
        vstd::seq_lib::to_multiset_insert(before, at as int, added);
        assert forall|i: int, j: int| 0 <= i <= j < after.len() implies text_le(
            #[trigger] after[i],
            #[trigger] after[j],
        ) by {
            lemma_bytes_le_reflexive(encode_utf8(added));
            if j == at && i < at {
                assert(after[i] == before[i]);
            } else if i == at && j > at {
                assert(after[j] == before[j - 1]);
                lemma_bytes_le_total(encode_utf8(added), encode_utf8(before[at as int]));
                assert(text_le(before[at as int], before[j - 1]));
                lemma_bytes_le_transitive(
                    encode_utf8(added),
                    encode_utf8(before[at as int]),
                    encode_utf8(before[j - 1]),
                );
            } else if i != at && j != at {
                let p = if i < at {
                    i
                } else {
                    i - 1
                };
                let q = if j < at {
                    j
                } else {
                    j - 1
                };
                assert(after[i] == before[p] && after[j] == before[q]);
            }
        }
    }
}

/// List available network interfaces (excluding loopback), given the names of
/// the entries under `/sys/class/net`. Names that are not text are left out.
#[must_use]
pub fn list_interfaces(names: &Vec<Vec<u8>>) -> (list: Vec<String>)
    ensures
        is_listing(texts(list@), raw_names(names@)),
{
    let mut list: Vec<String> = Vec::new();
    let loopback: String = "lo".to_owned();
    let mut i: usize = 0;
    let ghost raw = raw_names(names@);
    proof {
        assert(texts(list@) =~= Seq::empty());
        assert(raw.take(0) =~= Seq::empty());
    }
    while i < names.len()
        invariant
            i <= names@.len(),
            raw == raw_names(names@),
            loopback@ == "lo"@,
            is_listing(texts(list@), raw.take(i as int)),
        decreases names@.len() - i,
    {
        proof {
            assert(raw.take(i + 1).drop_last() =~= raw.take(i as int));
            assert(raw.take(i + 1).last() == names@[i as int]@);
            vstd::seq_lib::to_multiset_build(
                listed_names(raw.take(i as int)),
                decode_utf8(names@[i as int]@),
            );
        }
        if let Ok(name) = std::str::from_utf8(names[i].as_slice()) {
            let name: String = name.to_owned();
            if name != loopback {
                insert_sorted(&mut list, name);
            }
        }
        i += 1;
    }
    assert(raw.take(i as int) =~= raw);
    list
}

/// The interface that is used where none is chosen.
pub open spec fn default_interface() -> Seq<char> {
    "eth0"@
}

/// The interfaces to attach to: those chosen, or `eth0` where none is.
pub fn interfaces_or_default(chosen: Vec<String>) -> (interfaces: Vec<String>)
    ensures
        texts(interfaces@) == if chosen@.len() == 0 {
            seq![default_interface()]
        } else {
            texts(chosen@)
        },
        chosen@.len() == 0 ==> interfaces@.len() == 1 && interfaces@[0]@ == "eth0"@,
        chosen@.len() > 0 ==> interfaces == chosen,
{
    let mut interfaces: Vec<String> = chosen;
    if interfaces.len() == 0 {
        interfaces.push("eth0".to_owned());
        assert(texts(interfaces@) =~= seq![default_interface()]);
    }
    interfaces
}

/// What one name adds to the listing, wherever it stands.
proof fn lemma_listed_names_remove(names: Seq<Seq<u8>>, i: int)
    requires
        0 <= i < names.len(),
    ensures
        listed_names(names).to_multiset() == if is_listed(names[i]) {
            listed_names(names.remove(i)).to_multiset().insert(decode_utf8(names[i]))
        } else {
            listed_names(names.remove(i)).to_multiset()
        },
    decreases names.len(),
{
    broadcast use vstd::multiset::group_multiset_axioms;

    let front = names.drop_last();
    let rest = names.remove(i);
    vstd::seq_lib::to_multiset_build(listed_names(front), decode_utf8(names.last()));
    if i == names.len() - 1 {
        assert(rest =~= front);
    } else {
        lemma_listed_names_remove(front, i);
        assert(rest.drop_last() =~= front.remove(i));
        assert(rest.last() == names.last());
        vstd::seq_lib::to_multiset_build(listed_names(front.remove(i)), decode_utf8(names.last()));
        assert(front[i] == names[i]);
        let others = listed_names(front.remove(i)).to_multiset();
        assert(others.insert(decode_utf8(names[i])).insert(decode_utf8(names.last()))
            =~= others.insert(decode_utf8(names.last())).insert(decode_utf8(names[i])));
    }
}

/// The same names in another order add the same to the listing.
proof fn lemma_listed_names_multiset(names: Seq<Seq<u8>>, reordered: Seq<Seq<u8>>)
    requires
        names.to_multiset() == reordered.to_multiset(),
    ensures
        listed_names(names).to_multiset() == listed_names(reordered).to_multiset(),
    decreases names.len(),
{
    broadcast use vstd::multiset::group_multiset_axioms;
    broadcast use vstd::seq_lib::group_to_multiset_ensures;

    vstd::seq_lib::to_multiset_len(names);
    vstd::seq_lib::to_multiset_len(reordered);
    if names.len() > 0 {
        let last = names.last();
        assert(names.to_multiset().contains(last));
        let i = choose|i: int| 0 <= i < reordered.len() && reordered[i] == last;
        assert(names.remove(names.len() - 1) =~= names.drop_last());
        assert(names.drop_last().to_multiset() =~= reordered.remove(i).to_multiset());
        lemma_listed_names_multiset(names.drop_last(), reordered.remove(i));
        lemma_listed_names_remove(names, names.len() - 1);
        lemma_listed_names_remove(reordered, i);
    }
}

/// The order in which the names come does not show in the listing.
pub proof fn law_listing_does_not_depend_on_order(
    list: Seq<Seq<char>>,
    names: Seq<Seq<u8>>,
    other: Seq<Seq<char>>,
    reordered: Seq<Seq<u8>>,
)
    requires
        is_listing(list, names),
        is_listing(other, reordered),
        names.to_multiset() == reordered.to_multiset(),
    ensures
        list == other,
{
    lemma_listed_names_multiset(names, reordered);
    let le = |a: Seq<char>, b: Seq<char>| text_le(a, b);
    assert(total_ordering(le)) by {
        assert forall|a: Seq<char>| #[trigger] le(a, a) by {
            lemma_bytes_le_reflexive(encode_utf8(a));
        }
        assert forall|a: Seq<char>, b: Seq<char>| #[trigger] le(a, b) && #[trigger] le(
            b,
            a,
        ) implies a == b by {
            lemma_bytes_le_antisymmetric(encode_utf8(a), encode_utf8(b));
            vstd::utf8::encode_utf8_decode_utf8(a);
            vstd::utf8::encode_utf8_decode_utf8(b);
        }
        assert forall|a: Seq<char>, b: Seq<char>, c: Seq<char>| #[trigger]
            le(a, b) && #[trigger] le(b, c) implies le(a, c) by {
            lemma_bytes_le_transitive(encode_utf8(a), encode_utf8(b), encode_utf8(c));
        }
        assert forall|a: Seq<char>, b: Seq<char>| #[trigger] le(a, b) || le(b, a) by {
            lemma_bytes_le_total(encode_utf8(a), encode_utf8(b));
        }
    }
    assert(sorted_by(list, le));
    assert(sorted_by(other, le));
    vstd::seq_lib::lemma_sorted_unique(list, other, le);
}

/// Bytes that two sequences have in front in common do not matter to their order.
pub proof fn law_common_front_does_not_matter(front: Seq<u8>, a: Seq<u8>, b: Seq<u8>)
    ensures
        bytes_le(front + a, front + b) == bytes_le(a, b),
    decreases front.len(),
{
    if front.len() == 0 {
        assert(front + a =~= a);
        assert(front + b =~= b);
    } else {
        law_common_front_does_not_matter(front.drop_first(), a, b);
        assert((front + a).drop_first() =~= front.drop_first() + a);
        assert((front + b).drop_first() =~= front.drop_first() + b);
    }
}

/// The first bytes that differ decide on the order, and where there are none the
/// shorter sequence comes first.
pub proof fn law_first_difference_decides(a: Seq<u8>, b: Seq<u8>)
    ensures
        a.len() == 0 ==> bytes_le(a, b),
        a.len() > 0 && b.len() == 0 ==> !bytes_le(a, b),
        a.len() > 0 && b.len() > 0 && a[0] != b[0] ==> (bytes_le(a, b) <==> a[0] < b[0]),
{
}

/// Texts are in the order of their bytes.
pub proof fn law_texts_are_ordered_by_bytes(a: Seq<char>, b: Seq<char>)
    ensures
        text_le(a, b) <==> bytes_le(encode_utf8(a), encode_utf8(b)),
{
}

/// A name is listed exactly if it is text other than that of the loopback interface.
pub proof fn law_what_is_listed(names: Seq<Seq<u8>>, name: Seq<u8>)
    ensures
        listed_names(Seq::empty()) == Seq::<Seq<char>>::empty(),
        listed_names(names.push(name)) == if valid_utf8(name) && decode_utf8(name) != "lo"@ {
            listed_names(names).push(decode_utf8(name))
        } else {
            listed_names(names)
        },
{
    assert(names.push(name).drop_last() =~= names);
}

/// A listing holds each name as often as it is to be listed, and no name stands
/// before one that comes before it.
pub proof fn law_listing_is_sorted_and_complete(list: Seq<Seq<char>>, names: Seq<Seq<u8>>)
    requires
        is_listing(list, names),
    ensures
        list.len() == listed_names(names).len(),
        list.to_multiset() == listed_names(names).to_multiset(),
        forall|i: int, j: int|
            0 <= i < j < list.len() ==> bytes_le(
                encode_utf8(#[trigger] list[i]),
                encode_utf8(#[trigger] list[j]),
            ),
{
    vstd::seq_lib::to_multiset_len(list);
    vstd::seq_lib::to_multiset_len(listed_names(names));
    assert forall|i: int, j: int| 0 <= i < j < list.len() implies bytes_le(
        encode_utf8(#[trigger] list[i]),
        encode_utf8(#[trigger] list[j]),
    ) by {
        assert(text_le(list[i], list[j]));
    }
}

/// The texts of strings, and the sequences of byte vectors, are theirs one by one.
pub proof fn law_values_one_by_one(strings: Seq<String>, names: Seq<Vec<u8>>, i: int)
    ensures
        texts(strings).len() == strings.len(),
        0 <= i < strings.len() ==> texts(strings)[i] == strings[i]@,
        raw_names(names).len() == names.len(),
        0 <= i < names.len() ==> raw_names(names)[i] == names[i]@,
{
}

} // verus!
