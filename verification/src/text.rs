//! Strings as sequences of characters: trimming, case folding, splitting,
//! joining and decimal numerals.
use vstd::prelude::*;
use vstd::utf8::{decode_utf8, encode_utf8, is_ascii_chars, valid_utf8};

verus! {

/// The characters with the Unicode property `White_Space`.
pub open spec fn is_white_space(c: char) -> bool {
    let v = c as u32;
    ||| 0x09 <= v <= 0x0d
    ||| v == 0x20
    ||| v == 0x85
    ||| v == 0xa0
    ||| v == 0x1680
    ||| 0x2000 <= v <= 0x200a
    ||| v == 0x2028
    ||| v == 0x2029
    ||| v == 0x202f
    ||| v == 0x205f
    ||| v == 0x3000
}

/// `s` without its leading white space.
pub open spec fn trim_start(s: Seq<char>) -> Seq<char>
    decreases s.len(),
{
    if s.len() > 0 && is_white_space(s[0]) {
        trim_start(s.drop_first())
    } else {
        s
    }
}

/// `s` without its trailing white space.
pub open spec fn trim_end(s: Seq<char>) -> Seq<char>
    decreases s.len(),
{
    if s.len() > 0 && is_white_space(s.last()) {
        trim_end(s.drop_last())
    } else {
        s
    }
}

/// `s` without white space at either end.
pub open spec fn trimmed(s: Seq<char>) -> Seq<char> {
    trim_end(trim_start(s))
}

/// `str::trim`: the slice without leading and trailing white space, where white
/// space is the Unicode property `White_Space`.
pub assume_specification[ str::trim ](s: &str) -> (res: &str)
    ensures
        res@ == trimmed(s@),
;

/// The lower-case counterpart of an ASCII character; every other character is
/// its own.
pub open spec fn ascii_lower(c: char) -> char {
    if 'A' <= c <= 'Z' {
        (c as u32 + 32) as char
    } else {
        c
    }
}

/// What `str::to_lowercase` returns.
pub uninterp spec fn unicode_lowercase(s: Seq<char>) -> Seq<char>;

/// The lower-case form of `s`.
pub open spec fn lowercase(s: Seq<char>) -> Seq<char> {
    if is_ascii_chars(s) {
        s.map_values(|c: char| ascii_lower(c))
    } else {
        unicode_lowercase(s)
    }
}

/// `str::to_lowercase`: the lower-case form of the string, as Unicode defines
/// it. In a string of ASCII characters alone the letters `A` to `Z` become `a` to
/// `z` and nothing else changes; the result for any other string is named only.
pub assume_specification[ str::to_lowercase ](s: &str) -> (res: String)
    ensures
        res@ == (if is_ascii_chars(s@) {
            s@.map_values(|c: char| ascii_lower(c))
        } else {
            unicode_lowercase(s@)
        }),
;

/// `delimiter` stands in `s` at position `i`.
pub open spec fn occurs_at(s: Seq<char>, delimiter: Seq<char>, i: int) -> bool {
    &&& 0 <= i
    &&& i + delimiter.len() <= s.len()
    &&& s.subrange(i, i + delimiter.len()) == delimiter
}

/// `str::split_once` with a string as the delimiter: what stands before and what
/// stands behind the first occurrence of the delimiter, or nothing where it does
/// not occur.
#[verifier::external_body]
pub(crate) fn split_once<'a>(s: &'a str, delimiter: &str) -> (res: Option<(&'a str, &'a str)>)
    ensures
        match res {
            Some((before, behind)) => {
                &&& s@ == before@ + delimiter@ + behind@
                &&& forall|i: int| 0 <= i < before@.len() ==> !occurs_at(s@, delimiter@, i)
            },
            None => forall|i: int| !occurs_at(s@, delimiter@, i),
        },
{
    s.split_once(delimiter)
}

/// The error of `std::str::from_utf8`.
#[verifier::external_type_specification]
#[verifier::external_body]
pub struct ExUtf8Error(std::str::Utf8Error);

/// `std::str::from_utf8`: the bytes as text where they are valid UTF-8, an error
/// where they are not.
pub assume_specification<'a>[ std::str::from_utf8 ](v: &'a [u8]) -> (res: Result<
    &'a str,
    std::str::Utf8Error,
>)
    ensures
        res is Ok <==> valid_utf8(v@),
        res matches Ok(s) ==> s@ == decode_utf8(v@),
;

/// `String::push`: appends one character.
pub assume_specification[ String::push ](s: &mut String, c: char)
    ensures
        final(s)@ == old(s)@.push(c),
;

/// `String::push_str`: appends a string.
pub assume_specification[ String::push_str ](s: &mut String, t: &str)
    ensures
        final(s)@ == old(s)@ + t@,
;

/// The pieces of `s` between the separators in it; as many as there are
/// separators, and one more.
pub open spec fn split(s: Seq<char>, separator: char) -> Seq<Seq<char>>
    decreases s.len(),
{
    if s.len() == 0 {
        seq![Seq::empty()]
    } else if s[0] == separator {
        seq![Seq::<char>::empty()] + split(s.drop_first(), separator)
    } else {
        let rest = split(s.drop_first(), separator);
        rest.update(0, seq![s[0]] + rest[0])
    }
}

/// The pieces in order, with `separator` between each two.
pub open spec fn join(pieces: Seq<Seq<char>>, separator: Seq<char>) -> Seq<char>
    decreases pieces.len(),
{
    if pieces.len() == 0 {
        Seq::empty()
    } else if pieces.len() == 1 {
        pieces[0]
    } else {
        join(pieces.drop_last(), separator) + separator + pieces.last()
    }
}

/// The decimal numeral of `n`, without leading zeros.
pub open spec fn decimal(n: nat) -> Seq<char>
    decreases n,
{
    let digit = ('0' as u32 + n % 10) as char;
    if n < 10 {
        seq![digit]
    } else {
        decimal(n / 10).push(digit)
    }
}

/// Appends the decimal numeral of `n`.
pub fn push_decimal(s: &mut String, n: u64)
    ensures
        final(s)@ == old(s)@ + decimal(n as nat),
    decreases n,
{
    if n >= 10 {
        push_decimal(s, n / 10);
    }
    let digit: u8 = '0' as u8 + (n % 10) as u8;
    s.push(digit as char);
    assert(s@ =~= old(s)@ + decimal(n as nat));
}

/// `split` on a string in which the separator first occurs behind `before`.
pub(crate) proof fn lemma_split_at_first(before: Seq<char>, separator: char, behind: Seq<char>)
    requires
        !before.contains(separator),
    ensures
        split(before + seq![separator] + behind, separator) == seq![before] + split(
            behind,
            separator,
        ),
    decreases before.len(),
{
    let s = before + seq![separator] + behind;
    if before.len() == 0 {
        assert(s.drop_first() =~= behind);
        assert(before =~= Seq::<char>::empty());
    } else {
        assert(before[0] != separator);
        let rest = before.drop_first();
        assert(!rest.contains(separator)) by {
            if rest.contains(separator) {
                let i = rest.index_of(separator);
                assert(before[i + 1] == separator);
            }
        }
        lemma_split_at_first(rest, separator, behind);
        assert(s.drop_first() =~= rest + seq![separator] + behind);
        assert(seq![before[0]] + rest =~= before);
        assert(split(s, separator) =~= seq![before] + split(behind, separator));
    }
}

/// `split` on a string in which the separator does not occur.
pub(crate) proof fn lemma_split_whole(s: Seq<char>, separator: char)
    requires
        !s.contains(separator),
    ensures
        split(s, separator) == seq![s],
    decreases s.len(),
{
    if s.len() > 0 {
        assert(s[0] != separator);
        let rest = s.drop_first();
        assert(!rest.contains(separator)) by {
            if rest.contains(separator) {
                let i = rest.index_of(separator);
                assert(s[i + 1] == separator);
            }
        }
        lemma_split_whole(rest, separator);
        assert(seq![s[0]] + rest =~= s);
    } else {
        assert(s =~= Seq::<char>::empty());
    }
    assert(split(s, separator) =~= seq![s]);
}

/// What does not occur as a one-character string does not occur as a character.
proof fn lemma_absent(s: Seq<char>, delimiter: Seq<char>, separator: char, n: int)
    requires
        delimiter == seq![separator],
        0 <= n <= s.len(),
        forall|i: int| 0 <= i < n ==> !occurs_at(s, delimiter, i),
    ensures
        !s.take(n).contains(separator),
{
    if s.take(n).contains(separator) {
        let i = s.take(n).index_of(separator);
        assert(s.subrange(i, i + 1) =~= delimiter);
        assert(occurs_at(s, delimiter, i));
    }
}

/// Cuts off the first piece of `s`: the pieces of `s` are this one and those of
/// what is left.
pub(crate) fn first_piece<'a>(s: &'a str, delimiter: &str, Ghost(separator): Ghost<char>) -> (res: (
    &'a str,
    Option<&'a str>,
))
    requires
        delimiter@ == seq![separator],
    ensures
        match res.1 {
            Some(rest) => {
                &&& split(s@, separator) == seq![res.0@] + split(rest@, separator)
                &&& rest@.len() < s@.len()
            },
            None => split(s@, separator) == seq![res.0@],
        },
        res.0@.len() <= s@.len(),
{
    match split_once(s, delimiter) {
        Some((before, behind)) => {
            proof {
                assert(s@.take(before@.len() as int) =~= before@);
                lemma_absent(s@, delimiter@, separator, before@.len() as int);
                lemma_split_at_first(before@, separator, behind@);
            }
            (before, Some(behind))
        },
        None => {
            proof {
                assert(s@.take(s@.len() as int) =~= s@);
                lemma_absent(s@, delimiter@, separator, s@.len() as int);
                lemma_split_whole(s@, separator);
            }
            (s, None)
        },
    }
}

/// No character takes less than a byte.
pub(crate) proof fn lemma_chars_within_bytes(s: Seq<char>)
    ensures
        s.len() <= encode_utf8(s).len(),
    decreases s.len(),
{
    if s.len() > 0 {
        lemma_chars_within_bytes(s.drop_first());
    }
}

/// The separator put back between the pieces of a string gives the string.
pub proof fn law_join_undoes_split(s: Seq<char>, separator: char)
    ensures
        join(split(s, separator), seq![separator]) == s,
    decreases s.len(),
{
    let pieces = split(s, separator);
    if s.len() == 0 {
        assert(pieces.len() == 1);
        assert(pieces[0] =~= s);
    } else {
        let rest = split(s.drop_first(), separator);
        law_join_undoes_split(s.drop_first(), separator);
        lemma_split_not_empty(s.drop_first(), separator);
        if s[0] == separator {
            lemma_join_front(pieces, seq![separator]);
            assert(pieces.drop_first() =~= rest);
            assert(join(pieces, seq![separator]) =~= seq![s[0]] + s.drop_first());
        } else {
            lemma_join_front(pieces, seq![separator]);
            lemma_join_front(rest, seq![separator]);
            assert(pieces.drop_first() =~= rest.drop_first());
            assert(join(pieces, seq![separator]) =~= seq![s[0]] + s.drop_first());
        }
        assert(seq![s[0]] + s.drop_first() =~= s);
    }
}

/// There is at least one piece.
pub(crate) proof fn lemma_split_not_empty(s: Seq<char>, separator: char)
    ensures
        split(s, separator).len() >= 1,
    decreases s.len(),
{
    if s.len() > 0 {
        lemma_split_not_empty(s.drop_first(), separator);
    }
}

/// `join` seen from its first piece.
pub(crate) proof fn lemma_join_front(pieces: Seq<Seq<char>>, separator: Seq<char>)
    requires
        pieces.len() >= 1,
    ensures
        join(pieces, separator) == if pieces.len() == 1 {
            pieces[0]
        } else {
            pieces[0] + separator + join(pieces.drop_first(), separator)
        },
    decreases pieces.len(),
{
    if pieces.len() >= 2 {
        let tail = pieces.drop_first();
        if pieces.len() == 2 {
            reveal_with_fuel(join, 2);
            assert(join(pieces, separator) =~= pieces[0] + separator + pieces[1]);
        } else {
            lemma_join_front(pieces.drop_last(), separator);
            assert(pieces.drop_last().drop_first() =~= tail.drop_last());
            assert(join(pieces, separator) =~= pieces[0] + separator + join(tail, separator));
        }
    }
}

/// A separator at the end adds an empty piece.
pub(crate) proof fn lemma_split_push_separator(s: Seq<char>, separator: char)
    ensures
        split(s.push(separator), separator) == split(s, separator).push(Seq::empty()),
    decreases s.len(),
{
    let longer = s.push(separator);
    if s.len() == 0 {
        assert(longer.drop_first() =~= s);
        assert(split(longer, separator) =~= split(s, separator).push(Seq::empty()));
    } else {
        let rest = s.drop_first();
        lemma_split_push_separator(rest, separator);
        lemma_split_not_empty(rest, separator);
        assert(longer.drop_first() =~= rest.push(separator));
        assert(split(longer, separator) =~= split(s, separator).push(Seq::empty()));
    }
}

/// No white space is left at the start.
proof fn lemma_trim_start(s: Seq<char>)
    ensures
        trim_start(s).len() == 0 || !is_white_space(trim_start(s)[0]),
    decreases s.len(),
{
    if s.len() > 0 && is_white_space(s[0]) {
        lemma_trim_start(s.drop_first());
    }
}

/// Trimming the end takes nothing from the start, and leaves no white space
/// there.
proof fn lemma_trim_end(s: Seq<char>)
    ensures
        trim_end(s).len() <= s.len(),
        trim_end(s) == s.take(trim_end(s).len() as int),
        trim_end(s).len() == 0 || !is_white_space(trim_end(s).last()),
    decreases s.len(),
{
    if s.len() > 0 && is_white_space(s.last()) {
        lemma_trim_end(s.drop_last());
        assert(s.drop_last().take(trim_end(s).len() as int) =~= s.take(trim_end(s).len() as int));
    } else {
        assert(s.take(s.len() as int) =~= s);
    }
}

/// What is trimmed has nothing left to trim.
pub(crate) proof fn lemma_trimmed_twice(s: Seq<char>)
    ensures
        trimmed(trimmed(s)) == trimmed(s),
{
    lemma_trim_start(s);
    lemma_trim_end(trim_start(s));
}

/// `trim_start` with one character more, which is not white space.
proof fn lemma_trim_start_push(s: Seq<char>, c: char)
    requires
        !is_white_space(c),
    ensures
        trim_start(s.push(c)) == trim_start(s).push(c),
    decreases s.len(),
{
    if s.len() > 0 && is_white_space(s[0]) {
        lemma_trim_start_push(s.drop_first(), c);
        assert(s.push(c).drop_first() =~= s.drop_first().push(c));
    }
}

/// The last character stays at the end while the start is trimmed.
proof fn lemma_trim_start_last(s: Seq<char>)
    requires
        s.len() > 0,
        !is_white_space(s.last()),
    ensures
        trim_start(s).len() > 0,
        trim_start(s).last() == s.last(),
    decreases s.len(),
{
    if is_white_space(s[0]) {
        lemma_trim_start_last(s.drop_first());
    }
}

/// `trimmed` with one character more, where neither it nor the one before it is
/// white space.
pub(crate) proof fn lemma_trimmed_push(s: Seq<char>, c: char)
    requires
        s.len() == 0 || !is_white_space(s.last()),
        !is_white_space(c),
    ensures
        trimmed(s.push(c)) == trimmed(s).push(c),
{
    lemma_trim_start_push(s, c);
    if s.len() > 0 {
        lemma_trim_start_last(s);
    }
}

/// Trimming keeps ASCII strings ASCII.
pub(crate) proof fn lemma_trimmed_is_ascii(s: Seq<char>)
    requires
        is_ascii_chars(s),
    ensures
        is_ascii_chars(trimmed(s)),
{
    lemma_trim_start_is_ascii(s);
    lemma_trim_end(trim_start(s));
}

proof fn lemma_trim_start_is_ascii(s: Seq<char>)
    requires
        is_ascii_chars(s),
    ensures
        is_ascii_chars(trim_start(s)),
    decreases s.len(),
{
    if s.len() > 0 && is_white_space(s[0]) {
        lemma_trim_start_is_ascii(s.drop_first());
    }
}

/// On ASCII strings it is all one whether the trimming or the lower case comes
/// first.
pub(crate) proof fn lemma_trim_then_lower(s: Seq<char>)
    requires
        is_ascii_chars(s),
    ensures
        lowercase(trimmed(s)) == trimmed(lowercase(s)),
{
    lemma_trimmed_is_ascii(s);
    lemma_trim_start_is_ascii(s);
    lemma_trim_start_lower(s);
    lemma_trim_end_lower(trim_start(s));
}

proof fn lemma_trim_start_lower(s: Seq<char>)
    requires
        is_ascii_chars(s),
    ensures
        trim_start(s.map_values(|c: char| ascii_lower(c))) == trim_start(s).map_values(
            |c: char| ascii_lower(c),
        ),
    decreases s.len(),
{
    let lower = s.map_values(|c: char| ascii_lower(c));
    if s.len() > 0 && is_white_space(s[0]) {
        lemma_trim_start_lower(s.drop_first());
        assert(lower.drop_first() =~= s.drop_first().map_values(|c: char| ascii_lower(c)));
    }
}

proof fn lemma_trim_end_lower(s: Seq<char>)
    requires
        is_ascii_chars(s),
    ensures
        trim_end(s.map_values(|c: char| ascii_lower(c))) == trim_end(s).map_values(
            |c: char| ascii_lower(c),
        ),
    decreases s.len(),
{
    let lower = s.map_values(|c: char| ascii_lower(c));
    if s.len() > 0 && is_white_space(s.last()) {
        lemma_trim_end_lower(s.drop_last());
        assert(lower.drop_last() =~= s.drop_last().map_values(|c: char| ascii_lower(c)));
    }
}

/// The characters of a string that are ASCII white space: tab to carriage return,
/// and the space.
pub proof fn law_ascii_white_space(c: char)
    requires
        (c as u32) < 0x80,
    ensures
        is_white_space(c) <==> (9 <= (c as u32) <= 13 || (c as u32) == 32),
{
}

/// White space in front is trimmed off, however much there is.
proof fn lemma_trim_start_of(space: Seq<char>, s: Seq<char>)
    requires
        forall|i: int| 0 <= i < space.len() ==> is_white_space(#[trigger] space[i]),
        s.len() == 0 || !is_white_space(s[0]),
    ensures
        trim_start(space + s) == s,
    decreases space.len(),
{
    if space.len() == 0 {
        assert(space + s =~= s);
    } else {
        assert(is_white_space(space[0]));
        let rest = space.drop_first();
        assert forall|i: int| 0 <= i < rest.len() implies is_white_space(#[trigger] rest[i]) by {
            assert(rest[i] == space[i + 1]);
        }
        lemma_trim_start_of(rest, s);
        assert((space + s).drop_first() =~= rest + s);
    }
}

/// White space at the end is trimmed off, however much there is.
proof fn lemma_trim_end_of(s: Seq<char>, space: Seq<char>)
    requires
        forall|i: int| 0 <= i < space.len() ==> is_white_space(#[trigger] space[i]),
        s.len() == 0 || !is_white_space(s.last()),
    ensures
        trim_end(s + space) == s,
    decreases space.len(),
{
    if space.len() == 0 {
        assert(s + space =~= s);
    } else {
        assert(is_white_space(space[space.len() - 1]));
        let rest = space.drop_last();
        assert forall|i: int| 0 <= i < rest.len() implies is_white_space(#[trigger] rest[i]) by {
            assert(rest[i] == space[i]);
        }
        lemma_trim_end_of(s, rest);
        assert((s + space).drop_last() =~= s + rest);
    }
}

/// Trimming takes the white space off both ends, all of it and nothing else.
pub proof fn law_trimming_takes_white_space_alone(
    before: Seq<char>,
    s: Seq<char>,
    after: Seq<char>,
)
    requires
        forall|i: int| 0 <= i < before.len() ==> is_white_space(#[trigger] before[i]),
        forall|i: int| 0 <= i < after.len() ==> is_white_space(#[trigger] after[i]),
        s.len() > 0 ==> !is_white_space(s[0]) && !is_white_space(s.last()),
    ensures
        trimmed(before + s + after) == s,
{
    if s.len() == 0 {
        let space = before + after;
        assert(before + s + after =~= space + s);
        assert forall|i: int| 0 <= i < space.len() implies is_white_space(#[trigger] space[i]) by {
            if i < before.len() {
                assert(space[i] == before[i]);
            } else {
                assert(space[i] == after[i - before.len()]);
            }
        }
        lemma_trim_start_of(space, s);
    } else {
        assert(before + s + after =~= before + (s + after));
        lemma_trim_start_of(before, s + after);
        lemma_trim_end_of(s, after);
    }
}

/// In lower case an ASCII string has the same length, the letters `A` to `Z` are
/// moved up by 32, and every other character is the same.
pub proof fn law_ascii_lower_case(s: Seq<char>, i: int)
    requires
        is_ascii_chars(s),
        0 <= i < s.len(),
    ensures
        lowercase(s).len() == s.len(),
        lowercase(s)[i] as int == if 65 <= (s[i] as u32) <= 90 {
            s[i] as u32 + 32
        } else {
            s[i] as int
        },
{
}

/// No piece holds the separator. With `law_join_undoes_split` this fixes the pieces.
pub proof fn law_pieces_hold_no_separator(s: Seq<char>, separator: char, i: int)
    requires
        0 <= i < split(s, separator).len(),
    ensures
        !split(s, separator)[i].contains(separator),
    decreases s.len(),
{
    if s.len() > 0 {
        let rest = split(s.drop_first(), separator);
        lemma_split_not_empty(s.drop_first(), separator);
        if s[0] == separator {
            if i > 0 {
                law_pieces_hold_no_separator(s.drop_first(), separator, i - 1);
            }
        } else {
            law_pieces_hold_no_separator(s.drop_first(), separator, i);
            if i == 0 {
                let piece = seq![s[0]] + rest[0];
                assert(split(s, separator)[0] == piece);
                if piece.contains(separator) {
                    let j = piece.index_of(separator);
                    assert(rest[0][j - 1] == separator);
                }
            }
        }
    }
}

/// A separator parts the pieces of what stands before it from those of what stands
/// behind it.
pub proof fn law_separator_parts_the_pieces(a: Seq<char>, separator: char, b: Seq<char>)
    ensures
        split(a + seq![separator] + b, separator) == split(a, separator) + split(b, separator),
    decreases a.len(),
{
    let s = a + seq![separator] + b;
    if a.len() == 0 {
        assert(s.drop_first() =~= b);
    } else {
        law_separator_parts_the_pieces(a.drop_first(), separator, b);
        lemma_split_not_empty(a.drop_first(), separator);
        assert(s.drop_first() =~= a.drop_first() + seq![separator] + b);
        assert(split(s, separator) =~= split(a, separator) + split(b, separator));
    }
}

/// A piece stands in the string between separators, or at an end.
pub proof fn law_piece_stands_between_separators(s: Seq<char>, separator: char, i: int) -> (around: (
    Seq<char>,
    Seq<char>,
))
    requires
        0 <= i < split(s, separator).len(),
    ensures
        s == around.0 + split(s, separator)[i] + around.1,
        around.0.len() == 0 <==> i == 0,
        around.0.len() > 0 ==> around.0.last() == separator,
        around.1.len() > 0 ==> around.1[0] == separator,
        split(around.0, separator).len() == i + 1,
    decreases s.len(),
{
    let none = Seq::<char>::empty();
    if s.len() == 0 {
        assert(s =~= none + split(s, separator)[i] + none);
        (none, none)
    } else {
        let rest = s.drop_first();
        let pieces = split(rest, separator);
        lemma_split_not_empty(rest, separator);
        assert(s =~= seq![s[0]] + rest);
        if s[0] == separator {
            if i == 0 {
                assert(s =~= none + split(s, separator)[i] + s);
                (none, s)
            } else {
                let (before, after) = law_piece_stands_between_separators(rest, separator, i - 1);
                assert(split(s, separator)[i] == pieces[i - 1]);
                assert(s =~= (seq![separator] + before) + pieces[i - 1] + after);
                assert((seq![separator] + before).drop_first() =~= before);
                (seq![separator] + before, after)
            }
        } else {
            let (before, after) = law_piece_stands_between_separators(rest, separator, i);
            if i == 0 {
                assert(before =~= none);
                assert(s =~= none + split(s, separator)[0] + after);
                (none, after)
            } else {
                assert(split(s, separator)[i] == pieces[i]);
                assert(s =~= (seq![s[0]] + before) + pieces[i] + after);
                assert((seq![s[0]] + before).drop_first() =~= before);
                (seq![s[0]] + before, after)
            }
        }
    }
}

/// Pieces are joined with the separator between each two, and nothing else.
pub proof fn law_join_adds_piece_by_piece(
    pieces: Seq<Seq<char>>,
    piece: Seq<char>,
    separator: Seq<char>,
)
    ensures
        join(Seq::empty(), separator) == Seq::<char>::empty(),
        join(seq![piece], separator) == piece,
        pieces.len() > 0 ==> join(pieces.push(piece), separator) == join(pieces, separator)
            + separator + piece,
{
    assert(pieces.push(piece).drop_last() =~= pieces);
}

/// A number below ten is its digit; another digit behind a numeral other than zero
/// is worth ten times the number, and the digit.
pub proof fn law_numerals_are_decimal(n: nat, digit: nat)
    requires
        digit < 10,
    ensures
        decimal(digit) == seq![(48 + digit) as char],
        n > 0 ==> decimal(n * 10 + digit) == decimal(n).push((48 + digit) as char),
{
    assert((n * 10 + digit) / 10 == n);
    assert((n * 10 + digit) % 10 == digit);
}

} // verus!
