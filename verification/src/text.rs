//! Characters, strings and decimal numbers.

use vstd::arithmetic::div_mod::lemma_div_denominator;
use vstd::arithmetic::power::lemma_pow0;
use vstd::arithmetic::power::lemma_pow1;
use vstd::arithmetic::power::lemma_pow_positive;
use vstd::arithmetic::power::pow;
use vstd::prelude::*;
use vstd::utf8::char_u32_cast;
use vstd::utf8::decode_first_scalar;
use vstd::utf8::decode_utf8;
use vstd::utf8::decode_utf8_encode_utf8;
use vstd::utf8::decode_utf8_split;
use vstd::utf8::encode_scalar;
use vstd::utf8::encode_utf8;
use vstd::utf8::encode_utf8_decode_utf8;
use vstd::utf8::encode_utf8_first_scalar;
use vstd::utf8::encode_utf8_valid_utf8;
use vstd::utf8::is_char_boundary;
use vstd::utf8::is_char_boundary_iff_not_is_continuation_byte;
use vstd::utf8::length_of_first_scalar;
use vstd::utf8::utf8_byte_ranges_bitwise;
use vstd::utf8::valid_utf8;

verus! {

/// `String::push` appends the given character to the end of the string.
pub assume_specification[ String::push ](s: &mut String, ch: char)
    ensures
        final(s)@ == old(s)@.push(ch),
;

/// The contents of a sequence of strings.
pub open spec fn texts(strings: Seq<String>) -> Seq<Seq<char>> {
    strings.map_values(|s: String| s@)
}

/// The characters of `s`, in order.
pub fn chars_of(s: &str) -> (chars: Vec<char>)
    ensures
        chars@ == s@,
{
    let mut chars: Vec<char> = Vec::new();
    for c in it: s.chars()
        invariant
            it.seq() == s@,
            chars@ == s@.take(it.index() as int),
    {
        chars.push(c);
    }
    assert(s@.take(s@.len() as int) == s@);
    chars
}

/// The string made of `chars[from..to]`.
pub fn string_of(chars: &[char], from: usize, to: usize) -> (s: String)
    requires
        from <= to <= chars@.len(),
    ensures
        s@ == chars@.subrange(from as int, to as int),
{
    let mut s = String::new();
    let mut i: usize = from;
    while i < to
        invariant
            from <= i <= to <= chars@.len(),
            s@ == chars@.subrange(from as int, i as int),
        decreases to - i,
    {
        s.push(chars[i]);
        i += 1;
    }
    s
}

/// Whether two byte strings are equal.
pub fn same_bytes(a: &[u8], b: &[u8]) -> (same: bool)
    ensures
        same == (a@ == b@),
{
    if a.len() != b.len() {
        return false;
    }
    let mut i: usize = 0;
    while i < a.len()
        invariant
            i <= a@.len(),
            a@.len() == b@.len(),
            a@.take(i as int) == b@.take(i as int),
        decreases a@.len() - i,
    {
        if a[i] != b[i] {
            return false;
        }
        assert(a@.take(i + 1) == a@.take(i as int).push(a@[i as int]));
        assert(b@.take(i + 1) == b@.take(i as int).push(b@[i as int]));
        i += 1;
    }
    assert(a@.take(a@.len() as int) == a@);
    assert(b@.take(b@.len() as int) == b@);
    true
}

/// Different texts have different UTF-8 encodings.
pub proof fn lemma_encoding_is_injective(a: Seq<char>, b: Seq<char>)
    ensures
        encode_utf8(a) == encode_utf8(b) <==> a == b,
{
    encode_utf8_decode_utf8(a);
    encode_utf8_decode_utf8(b);
}

/// The encoding of a text is the encodings of its parts, one after the other.
pub proof fn lemma_encoding_of_concat(a: Seq<char>, b: Seq<char>)
    ensures
        encode_utf8(a + b) == encode_utf8(a) + encode_utf8(b),
    decreases a.len(),
{
    if a.len() == 0 {
        assert(a + b == b);
        assert(encode_utf8(a) + encode_utf8(b) == encode_utf8(b));
    } else {
        lemma_encoding_of_concat(a.drop_first(), b);
        assert((a + b).drop_first() == a.drop_first() + b);
        assert(encode_utf8(a + b) =~= encode_utf8(a) + encode_utf8(b));
    }
}

/// Bytes that encode two texts one after the other encode the texts one after the other.
pub proof fn lemma_decoding_of_concat(a: Seq<u8>, b: Seq<u8>)
    requires
        valid_utf8(a),
        valid_utf8(b),
    ensures
        valid_utf8(a + b),
        decode_utf8(a + b) == decode_utf8(a) + decode_utf8(b),
{
    decode_utf8_encode_utf8(a);
    decode_utf8_encode_utf8(b);
    lemma_encoding_of_concat(decode_utf8(a), decode_utf8(b));
    encode_utf8_valid_utf8(decode_utf8(a) + decode_utf8(b));
    encode_utf8_decode_utf8(decode_utf8(a) + decode_utf8(b));
}

/// Texts start with each other exactly where their encodings do.
pub proof fn lemma_encoded_start(start: Seq<char>, text: Seq<char>)
    ensures
        start.is_prefix_of(text) <==> encode_utf8(start).is_prefix_of(encode_utf8(text)),
    decreases start.len(),
{
    let a = encode_utf8(start);
    let b = encode_utf8(text);
    if start.is_prefix_of(text) {
        let rest = text.skip(start.len() as int);
        assert(text =~= start + rest);
        lemma_encoding_of_concat(start, rest);
        assert(b.subrange(0, a.len() as int) =~= a);
    }
    if a.is_prefix_of(b) {
        if start.len() == 0 {
            assert(start =~= text.subrange(0, 0));
        } else {
            encode_utf8_first_scalar(start);
            assert(a.len() > 0);
            assert(text.len() > 0);
            encode_utf8_first_scalar(text);
            assert forall|i: int| 0 <= i < a.len() implies a[i] == b[i] by {
                assert(a[i] == b.subrange(0, a.len() as int)[i]);
            }
            assert(length_of_first_scalar(a) <= a.len());
            assert(decode_first_scalar(a) == decode_first_scalar(b));
            assert(start[0] == text[0]) by {
                char_u32_cast(start[0], start[0] as u32);
                char_u32_cast(text[0], text[0] as u32);
            }
            let x = start.drop_first();
            let y = text.drop_first();
            let first = encode_scalar(start[0] as u32);
            assert(a == first + encode_utf8(x));
            assert(b == first + encode_utf8(y));
            assert(encode_utf8(x) =~= encode_utf8(y).subrange(0, encode_utf8(x).len() as int)) by {
                assert forall|i: int| 0 <= i < encode_utf8(x).len() implies encode_utf8(x)[i]
                    == encode_utf8(y)[i] by {
                    assert(a[first.len() + i] == b[first.len() + i]);
                }
            }
            lemma_encoded_start(x, y);
            assert(start =~= text.subrange(0, start.len() as int)) by {
                assert forall|i: int| 0 <= i < start.len() implies start[i] == text[i] by {
                    if i > 0 {
                        assert(x[i - 1] == y.subrange(0, x.len() as int)[i - 1]);
                    }
                }
            }
        }
    }
}

/// Texts end with each other exactly where their encodings do.
pub proof fn lemma_encoded_end(end: Seq<char>, text: Seq<char>)
    ensures
        end.is_suffix_of(text) <==> encode_utf8(end).is_suffix_of(encode_utf8(text)),
{
    let a = encode_utf8(end);
    let b = encode_utf8(text);
    let from = b.len() - a.len();
    if end.is_suffix_of(text) {
        let rest = text.take(text.len() - end.len());
        assert(text =~= rest + end);
        lemma_encoding_of_concat(rest, end);
        assert(b.subrange(from, b.len() as int) =~= a);
    }
    if a.is_suffix_of(b) {
        if end.len() == 0 {
            assert(end =~= text.subrange(text.len() as int, text.len() as int));
        } else {
            encode_utf8_valid_utf8(text);
            encode_utf8_decode_utf8(text);
            encode_utf8_valid_utf8(end);
            encode_utf8_decode_utf8(end);
            encode_utf8_first_scalar(end);
            let tail = b.subrange(from, b.len() as int);
            assert(tail == a);
            assert(a[0] == b[from]);
            utf8_byte_ranges_bitwise(a[0]);
            is_char_boundary_iff_not_is_continuation_byte(b, from);
            assert(is_char_boundary(b, from));
            decode_utf8_split(b, from);
            let head = decode_utf8(b.subrange(0, from));
            assert(text == head + end);
            assert(end =~= text.subrange(text.len() - end.len(), text.len() as int));
        }
    }
}

/// Whether two strings have the same text.
pub fn same_text(a: &str, b: &str) -> (same: bool)
    ensures
        same == (a@ == b@),
{
    proof {
        lemma_encoding_is_injective(a@, b@);
    }
    same_bytes(a.as_bytes(), b.as_bytes())
}

/// The maximal runs of `s` between separators, in order, the empty ones among them: one more
/// than there are separators.
pub open spec fn split<T>(s: Seq<T>, separator: T) -> Seq<Seq<T>>
    decreases s.len(),
{
    if s.len() == 0 {
        seq![Seq::empty()]
    } else {
        let before = split(s.drop_last(), separator);
        if s.last() == separator {
            before.push(Seq::empty())
        } else {
            before.drop_last().push(before.last().push(s.last()))
        }
    }
}

/// The pieces one after the other, with a separator between neighbours.
pub open spec fn join<T>(pieces: Seq<Seq<T>>, separator: Seq<T>) -> Seq<T>
    decreases pieces.len(),
{
    if pieces.len() == 0 {
        Seq::empty()
    } else if pieces.len() == 1 {
        pieces[0]
    } else {
        join(pieces.drop_last(), separator) + separator + pieces.last()
    }
}

/// A split has at least one piece.
pub proof fn lemma_split_is_not_empty<T>(s: Seq<T>, separator: T)
    ensures
        split(s, separator).len() > 0,
    decreases s.len(),
{
    if s.len() > 0 {
        lemma_split_is_not_empty(s.drop_last(), separator);
    }
}

/// Splitting loses nothing: no piece holds a separator, and the pieces joined by the separator
/// give back the text.
pub proof fn law_split_then_join<T>(s: Seq<T>, separator: T)
    ensures
        split(s, separator).len() > 0,
        forall|i: int|
            0 <= i < split(s, separator).len() ==> !(#[trigger] split(s, separator)[i]).contains(
                separator,
            ),
        join(split(s, separator), seq![separator]) == s,
    decreases s.len(),
{
    if s.len() > 0 {
        let front = s.drop_last();
        let before = split(front, separator);
        let pieces = split(s, separator);
        law_split_then_join(front, separator);
        if s.last() == separator {
            assert(pieces.drop_last() == before);
            assert(s == front + seq![separator] + Seq::<T>::empty());
        } else {
            assert(pieces.drop_last() == before.drop_last());
            assert forall|i: int| 0 <= i < pieces.len() implies !(#[trigger] pieces[i]).contains(
                separator,
            ) by {
                if i < before.len() - 1 {
                    assert(pieces[i] == before[i]);
                } else {
                    assert(!before[i].contains(separator));
                }
            }
            assert(s == front.push(s.last()));
            if before.len() == 1 {
                assert(front == before[0]);
            } else {
                let head = join(before.drop_last(), seq![separator]) + seq![separator];
                assert(head + before.last().push(s.last()) == (head + before.last()).push(s.last()));
            }
        }
    }
}

/// Joining pieces that hold no separator and splitting the result gives the pieces back.
pub proof fn law_join_then_split<T>(pieces: Seq<Seq<T>>, separator: T)
    requires
        pieces.len() > 0,
        forall|i: int| 0 <= i < pieces.len() ==> !(#[trigger] pieces[i]).contains(separator),
    ensures
        split(join(pieces, seq![separator]), separator) == pieces,
    decreases pieces.len(),
{
    let last = pieces.last();
    assert(!pieces[pieces.len() - 1].contains(separator));
    if pieces.len() == 1 {
        lemma_split_append(Seq::empty(), last, separator);
        assert(Seq::<T>::empty() + last == last);
        assert(seq![Seq::<T>::empty()].drop_last().push(Seq::<T>::empty() + last) == pieces);
    } else {
        let front = pieces.drop_last();
        assert forall|i: int| 0 <= i < front.len() implies !(#[trigger] front[i]).contains(
            separator,
        ) by {
            assert(front[i] == pieces[i]);
        }
        law_join_then_split(front, separator);
        let head = join(front, seq![separator]);
        lemma_split_after_separator(head, last, separator);
        assert(head + seq![separator] + last == head.push(separator) + last);
        assert(front.push(last) == pieces);
    }
}

/// A text without separators is one piece, and a text behind a separator is split apart from what
/// stands before it: the first piece ends at the first separator.
pub proof fn law_split_at_first<T>(first: Seq<T>, rest: Seq<T>, separator: T)
    requires
        !first.contains(separator),
    ensures
        split(first, separator) == seq![first],
        split(first.push(separator) + rest, separator) == seq![first] + split(rest, separator),
    decreases rest.len(),
{
    lemma_split_append(Seq::empty(), first, separator);
    assert(Seq::<T>::empty() + first =~= first);
    assert(seq![Seq::<T>::empty()].drop_last().push(first) =~= seq![first]);
    let whole = first.push(separator) + rest;
    if rest.len() == 0 {
        assert(whole =~= first.push(separator));
        assert(first.push(separator).drop_last() =~= first);
        assert(seq![first].push(Seq::<T>::empty()) =~= seq![first] + seq![Seq::<T>::empty()]);
    } else {
        let shorter = rest.drop_last();
        law_split_at_first(first, shorter, separator);
        lemma_split_is_not_empty(shorter, separator);
        assert(whole.drop_last() =~= first.push(separator) + shorter);
        assert(whole.last() == rest.last());
        let before = split(shorter, separator);
        let all = seq![first] + before;
        assert(all.last() == before.last());
        assert(split(whole, separator) =~= seq![first] + split(rest, separator));
    }
}

/// Nothing joined is nothing, one piece joined is that piece, and two lists of pieces are joined by
/// joining each and setting the separator between them.
pub proof fn law_join_in_parts<T>(a: Seq<Seq<T>>, b: Seq<Seq<T>>, piece: Seq<T>, separator: Seq<T>)
    requires
        a.len() > 0,
        b.len() > 0,
    ensures
        join(Seq::<Seq<T>>::empty(), separator) == Seq::<T>::empty(),
        join(seq![piece], separator) == piece,
        join(a + b, separator) == join(a, separator) + separator + join(b, separator),
    decreases b.len(),
{
    let whole = a + b;
    assert(whole.drop_last() =~= a + b.drop_last());
    assert(whole.last() == b.last());
    if b.len() == 1 {
        assert(a + b.drop_last() =~= a);
    } else {
        law_join_in_parts(a, b.drop_last(), piece, separator);
        assert(join(whole, separator) =~= join(a, separator) + separator + join(b, separator));
    }
}

/// Appending a text without separators lengthens the last piece.
pub proof fn lemma_split_append<T>(s: Seq<T>, tail: Seq<T>, separator: T)
    requires
        !tail.contains(separator),
    ensures
        split(s + tail, separator) == split(s, separator).drop_last().push(
            split(s, separator).last() + tail,
        ),
    decreases tail.len(),
{
    lemma_split_is_not_empty(s, separator);
    if tail.len() == 0 {
        assert(s + tail == s);
        assert(split(s, separator).last() + tail == split(s, separator).last());
    } else {
        let shorter = tail.drop_last();
        assert(tail.contains(tail.last()));
        assert forall|x: T| shorter.contains(x) implies tail.contains(x) by {
            let k = choose|k: int| 0 <= k < shorter.len() && shorter[k] == x;
            assert(tail[k] == x);
        }
        lemma_split_append(s, shorter, separator);
        assert((s + tail).drop_last() == s + shorter);
        assert(split(s, separator).last() + tail == (split(s, separator).last() + shorter).push(
            tail.last(),
        ));
    }
}

/// A separator followed by a text without separators adds that text as one piece.
pub proof fn lemma_split_after_separator<T>(s: Seq<T>, tail: Seq<T>, separator: T)
    requires
        !tail.contains(separator),
    ensures
        split(s.push(separator) + tail, separator) == split(s, separator).push(tail),
{
    lemma_split_append(s.push(separator), tail, separator);
    assert(s.push(separator).drop_last() == s);
    assert(Seq::<T>::empty() + tail == tail);
}

/// Whether each item of a list comes before all that follow it.
pub open spec fn is_ascending<T>(list: Seq<T>, before: spec_fn(T, T) -> bool) -> bool {
    forall|i: int, j: int|
        0 <= i < j < list.len() ==> before(#[trigger] list[i], #[trigger] list[j])
}

/// The members of an ascending list fix it.
pub proof fn lemma_ascending_lists_are_equal<T>(
    a: Seq<T>,
    b: Seq<T>,
    before: spec_fn(T, T) -> bool,
)
    requires
        forall|x: T, y: T| #[trigger] before(x, y) ==> !before(y, x),
        is_ascending(a, before),
        is_ascending(b, before),
        forall|x: T| a.contains(x) <==> b.contains(x),
    ensures
        a == b,
    decreases a.len(),
{
    if a.len() == 0 {
        if b.len() > 0 {
            assert(b.contains(b[0]));
            assert(a.contains(b[0]));
        }
        assert(a =~= b);
    } else {
        assert(a.contains(a[0]));
        assert(b.contains(a[0]));
        assert(b.contains(b[0]));
        assert(a.contains(b[0]));
        let i = choose|i: int| 0 <= i < a.len() && a[i] == b[0];
        let j = choose|j: int| 0 <= j < b.len() && b[j] == a[0];
        assert(a[0] == b[0]) by {
            if i > 0 && j > 0 {
                assert(before(a[0], a[i]));
                assert(before(b[0], b[j]));
            }
        }
        lemma_rest_of_ascending(a, before);
        lemma_rest_of_ascending(b, before);
        lemma_ascending_lists_are_equal(a.drop_first(), b.drop_first(), before);
        assert(a =~= seq![a[0]] + a.drop_first());
        assert(b =~= seq![b[0]] + b.drop_first());
    }
}

proof fn lemma_rest_of_ascending<T>(list: Seq<T>, before: spec_fn(T, T) -> bool)
    requires
        forall|x: T, y: T| #[trigger] before(x, y) ==> !before(y, x),
        is_ascending(list, before),
        list.len() > 0,
    ensures
        is_ascending(list.drop_first(), before),
        forall|x: T| #[trigger]
            list.drop_first().contains(x) <==> list.contains(x) && x != list[0],
{
    let rest = list.drop_first();
    assert forall|i: int, j: int| 0 <= i < j < rest.len() implies before(
        #[trigger] rest[i],
        #[trigger] rest[j],
    ) by {
        assert(rest[i] == list[i + 1] && rest[j] == list[j + 1]);
    }
    assert forall|x: T| #[trigger] rest.contains(x) <==> list.contains(x) && x != list[0] by {
        if rest.contains(x) {
            let k = choose|k: int| 0 <= k < rest.len() && rest[k] == x;
            assert(list[k + 1] == x);
            assert(before(list[0], list[k + 1]));
        }
        if list.contains(x) && x != list[0] {
            let k = choose|k: int| 0 <= k < list.len() && list[k] == x;
            assert(rest[k - 1] == x);
        }
    }
}

/// The contents of a sequence of lists.
pub open spec fn contents<T>(lists: Seq<Vec<T>>) -> Seq<Seq<T>> {
    lists.map_values(|list: Vec<T>| list@)
}

/// The pieces of `s` between the items that are separators.
fn split_items<T: Copy>(
    s: &[T],
    is_separator: impl Fn(T) -> bool,
    Ghost(separator): Ghost<T>,
) -> (pieces: Vec<Vec<T>>)
    requires
        forall|x: T| call_requires(is_separator, (x,)),
        forall|x: T, yes: bool| call_ensures(is_separator, (x,), yes) ==> yes == (x == separator),
    ensures
        contents(pieces@) == split(s@, separator),
{
    let mut pieces: Vec<Vec<T>> = Vec::new();
    let mut piece: Vec<T> = Vec::new();
    let mut i: usize = 0;
    while i < s.len()
        invariant
            i <= s@.len(),
            forall|x: T| call_requires(is_separator, (x,)),
            forall|x: T, yes: bool|
                call_ensures(is_separator, (x,), yes) ==> yes == (x == separator),
            contents(pieces@).push(piece@) == split(s@.take(i as int), separator),
        decreases s@.len() - i,
    {
        let item = s[i];
        let ghost done = contents(pieces@);
        let ghost before = split(s@.take(i as int), separator);
        assert(s@.take(i + 1).drop_last() == s@.take(i as int));
        assert(before.drop_last() == done && before.last() == piece@);
        if is_separator(item) {
            pieces.push(piece);
            piece = Vec::new();
            assert(contents(pieces@) == before);
        } else {
            piece.push(item);
        }
        i += 1;
    }
    assert(s@.take(s@.len() as int) == s@);
    let ghost done = contents(pieces@).push(piece@);
    pieces.push(piece);
    assert(contents(pieces@) == done);
    pieces
}

/// The pieces of `s` between occurrences of `separator`.
pub fn split_chars(s: &[char], separator: char) -> (pieces: Vec<Vec<char>>)
    ensures
        contents(pieces@) == split(s@, separator),
{
    let is_separator = |c: char| -> (yes: bool)
        ensures
            yes == (c == separator),
        { c == separator };
    split_items(s, is_separator, Ghost(separator))
}

/// The pieces of `s` between occurrences of `separator`.
pub fn split_bytes(s: &[u8], separator: u8) -> (pieces: Vec<Vec<u8>>)
    ensures
        contents(pieces@) == split(s@, separator),
{
    let is_separator = |b: u8| -> (yes: bool)
        ensures
            yes == (b == separator),
        { b == separator };
    split_items(s, is_separator, Ghost(separator))
}

/// The characters with the Unicode property `White_Space`.
pub open spec fn is_space(c: char) -> bool {
    ||| '\u{9}' <= c <= '\u{d}'
    ||| c == ' '
    ||| c == '\u{85}'
    ||| c == '\u{a0}'
    ||| c == '\u{1680}'
    ||| '\u{2000}' <= c <= '\u{200a}'
    ||| '\u{2028}' <= c <= '\u{2029}'
    ||| c == '\u{202f}'
    ||| c == '\u{205f}'
    ||| c == '\u{3000}'
}

/// `s` without the white space that it starts with.
pub open spec fn trim_start(s: Seq<char>) -> Seq<char>
    decreases s.len(),
{
    if s.len() > 0 && is_space(s[0]) {
        trim_start(s.drop_first())
    } else {
        s
    }
}

/// `s` without the white space that it ends with.
pub open spec fn trim_end(s: Seq<char>) -> Seq<char>
    decreases s.len(),
{
    if s.len() > 0 && is_space(s.last()) {
        trim_end(s.drop_last())
    } else {
        s
    }
}

/// `s` without white space at either end.
pub open spec fn trim(s: Seq<char>) -> Seq<char> {
    trim_end(trim_start(s))
}

/// What is trimmed away is white space at the ends, and none is left there.
pub proof fn law_trim(s: Seq<char>)
    ensures
        trim(s).len() > 0 ==> !is_space(trim(s)[0]) && !is_space(trim(s).last()),
        exists|from: int, to: int|
            0 <= from <= to <= s.len() && trim(s) == #[trigger] s.subrange(from, to) && (forall|
                i: int,
            |
                0 <= i < from || to <= i < s.len() ==> is_space(#[trigger] s[i])),
{
    let from = lemma_trim_start(s);
    let rest = trim_start(s);
    let kept = lemma_trim_end(rest);
    let to = from + kept;
    assert(s.subrange(from, to) == trim(s));
    assert forall|i: int| 0 <= i < from || to <= i < s.len() implies is_space(#[trigger] s[i]) by {
        if to <= i {
            assert(rest[i - from] == s[i]);
        }
    }
}

/// White space around a text that neither starts nor ends with any is trimmed away, and nothing
/// else is.
pub proof fn law_trim_takes_all_space(before: Seq<char>, text: Seq<char>, behind: Seq<char>)
    requires
        forall|i: int| 0 <= i < before.len() ==> is_space(#[trigger] before[i]),
        forall|i: int| 0 <= i < behind.len() ==> is_space(#[trigger] behind[i]),
        text.len() > 0 ==> !is_space(text[0]) && !is_space(text.last()),
    ensures
        trim(before + text + behind) == text,
{
    let s = before + text + behind;
    law_trim(s);
    let (from, to) = choose|from: int, to: int|
        0 <= from <= to <= s.len() && trim(s) == #[trigger] s.subrange(from, to) && (forall|i: int|
            0 <= i < from || to <= i < s.len() ==> is_space(#[trigger] s[i]));
    let start = before.len() as int;
    let end = (before.len() + text.len()) as int;
    assert forall|i: int| 0 <= i < start || end <= i < s.len() implies is_space(#[trigger] s[i]) by {
        if i < start {
            assert(s[i] == before[i]);
        } else {
            assert(s[i] == behind[i - end]);
        }
    }
    if from < to {
        assert(trim(s)[0] == s[from]);
        assert(trim(s).last() == s[to - 1]);
    }
    if text.len() > 0 {
        assert(s[start] == text[0] && s[end - 1] == text.last());
    }
    assert(trim(s) =~= text);
}

proof fn lemma_trim_start(s: Seq<char>) -> (from: int)
    ensures
        0 <= from <= s.len(),
        trim_start(s) == s.subrange(from, s.len() as int),
        trim_start(s).len() > 0 ==> !is_space(trim_start(s)[0]),
        forall|i: int| 0 <= i < from ==> is_space(#[trigger] s[i]),
    decreases s.len(),
{
    if s.len() > 0 && is_space(s[0]) {
        let from = lemma_trim_start(s.drop_first());
        assert forall|i: int| 0 <= i < from + 1 implies is_space(#[trigger] s[i]) by {
            if i > 0 {
                assert(s.drop_first()[i - 1] == s[i]);
            }
        }
        assert(s.drop_first().subrange(from, s.len() - 1) == s.subrange(from + 1, s.len() as int));
        from + 1
    } else {
        assert(s.subrange(0, s.len() as int) == s);
        0
    }
}

proof fn lemma_trim_end(s: Seq<char>) -> (kept: int)
    ensures
        0 <= kept <= s.len(),
        trim_end(s) == s.take(kept),
        kept > 0 ==> !is_space(s[kept - 1]),
        forall|i: int| kept <= i < s.len() ==> is_space(#[trigger] s[i]),
    decreases s.len(),
{
    if s.len() > 0 && is_space(s.last()) {
        let kept = lemma_trim_end(s.drop_last());
        assert forall|i: int| kept <= i < s.len() implies is_space(#[trigger] s[i]) by {
            if i < s.len() - 1 {
                assert(s.drop_last()[i] == s[i]);
            }
        }
        assert(s.drop_last().take(kept) == s.take(kept));
        kept
    } else {
        assert(s.take(s.len() as int) == s);
        s.len() as int
    }
}

/// Whether `c` is white space.
pub fn is_space_char(c: char) -> (space: bool)
    ensures
        space == is_space(c),
{
    ('\u{9}' <= c && c <= '\u{d}') || c == ' ' || c == '\u{85}' || c == '\u{a0}' || c == '\u{1680}'
        || ('\u{2000}' <= c && c <= '\u{200a}') || c == '\u{2028}' || c == '\u{2029}' || c
        == '\u{202f}' || c == '\u{205f}' || c == '\u{3000}'
}

/// `s` without white space at either end, as a string.
pub fn trim_chars(s: &[char]) -> (trimmed: String)
    ensures
        trimmed@ == trim(s@),
{
    let mut from: usize = 0;
    assert(s@.skip(0) == s@);
    while from < s.len() && is_space_char(s[from])
        invariant
            from <= s@.len(),
            trim_start(s@.skip(from as int)) == trim_start(s@),
        decreases s@.len() - from,
    {
        assert(s@.skip(from as int).drop_first() == s@.skip(from + 1));
        from += 1;
    }
    let ghost rest = s@.skip(from as int);
    assert(rest == trim_start(s@));
    let mut to: usize = s.len();
    assert(s@.subrange(from as int, to as int) == rest);
    while from < to && is_space_char(s[to - 1])
        invariant
            from <= to <= s@.len(),
            trim_end(s@.subrange(from as int, to as int)) == trim_end(rest),
        decreases to,
    {
        assert(s@.subrange(from as int, to as int).drop_last() == s@.subrange(
            from as int,
            to - 1,
        ));
        to -= 1;
    }
    string_of(s, from, to)
}

/// The digit of value `d`.
pub open spec fn digit(d: int) -> char {
    (d + '0' as int) as char
}

/// Whether `c` is an ASCII digit.
pub open spec fn is_digit(c: char) -> bool {
    '0' <= c <= '9'
}

/// The value of an ASCII digit.
pub open spec fn digit_value(c: char) -> int {
    c as int - '0' as int
}

/// `n` in decimal notation, without leading zeros.
pub open spec fn decimal(n: nat) -> Seq<char>
    decreases n,
{
    if n < 10 {
        seq![digit(n as int)]
    } else {
        decimal(n / 10).push(digit((n % 10) as int))
    }
}

/// `n` in decimal notation.
pub fn to_decimal(n: u128) -> (s: String)
    ensures
        s@ == decimal(n as nat),
    decreases n,
{
    let d: u8 = (n % 10) as u8;
    let mut s = if n < 10 {
        String::new()
    } else {
        to_decimal(n / 10)
    };
    s.push((d + 48u8) as char);
    s
}

/// Why a text is no number of at most 64 bits.
#[derive(Clone, Copy, Debug, PartialEq, Eq, Structural)]
pub enum NumberError {
    /// The text is empty.
    Empty,
    /// A character is no digit.
    InvalidDigit,
    /// The number is too large.
    TooLarge,
}

/// The number that `digits` gives when it is read from the left with `acc` read already. The first
/// place where a character is no digit, or where the number outgrows 64 bits, decides the error.
pub open spec fn read_digits(digits: Seq<char>, acc: nat) -> Result<u64, NumberError>
    decreases digits.len(),
{
    if digits.len() == 0 {
        Ok(acc as u64)
    } else if !is_digit(digits[0]) {
        Err(NumberError::InvalidDigit)
    } else {
        let next = (acc * 10 + digit_value(digits[0])) as nat;
        if next > u64::MAX {
            Err(NumberError::TooLarge)
        } else {
            read_digits(digits.drop_first(), next)
        }
    }
}

/// The number that `s` writes: decimal digits, behind an optional plus sign.
pub open spec fn read_number(s: Seq<char>) -> Result<u64, NumberError> {
    if s.len() == 0 {
        Err(NumberError::Empty)
    } else if s.len() > 1 && s[0] == '+' {
        read_digits(s.drop_first(), 0)
    } else {
        read_digits(s, 0)
    }
}

/// Reads a decimal number.
pub fn parse_number(s: &str) -> (n: Result<u64, NumberError>)
    ensures
        n == read_number(s@),
{
    let chars = chars_of(s);
    if chars.len() == 0 {
        return Err(NumberError::Empty);
    }
    let mut i: usize = 0;
    if chars.len() > 1 && chars[0] == '+' {
        i = 1;
    }
    let mut n: u64 = 0;
    assert(chars@.skip(0) == chars@);
    assert(chars@.skip(1) == chars@.drop_first());
    while i < chars.len()
        invariant
            i <= chars@.len(),
            chars@ == s@,
            read_digits(chars@.skip(i as int), n as nat) == read_number(chars@),
        decreases chars@.len() - i,
    {
        let c = chars[i];
        assert(chars@.skip(i as int).drop_first() == chars@.skip(i + 1));
        if !('0' <= c && c <= '9') {
            return Err(NumberError::InvalidDigit);
        }
        let d: u64 = (c as u64) - 48;
        if n > u64::MAX / 10 || n * 10 > u64::MAX - d {
            return Err(NumberError::TooLarge);
        }
        n = n * 10 + d;
        i += 1;
    }
    Ok(n)
}

/// The value of a sequence of digits.
pub open spec fn digits_value(digits: Seq<char>) -> nat
    decreases digits.len(),
{
    if digits.len() == 0 {
        0
    } else {
        (digits_value(digits.drop_last()) * 10 + digit_value(digits.last())) as nat
    }
}

/// Reading a number succeeds exactly on a digit sequence of at most 64 bits, and gives its value.
pub proof fn law_read_digits(digits: Seq<char>)
    ensures
        read_digits(digits, 0) is Ok <==> (forall|i: int|
            0 <= i < digits.len() ==> is_digit(#[trigger] digits[i])) && digits_value(digits)
            <= u64::MAX,
        read_digits(digits, 0) is Ok ==> read_digits(digits, 0)->Ok_0 == digits_value(digits),
{
    assert(digits.take(0).len() == 0);
    lemma_read_from(digits, 0);
    assert(digits.skip(0) == digits);
}

proof fn lemma_read_from(digits: Seq<char>, k: int)
    requires
        0 <= k <= digits.len(),
        forall|i: int| 0 <= i < k ==> is_digit(#[trigger] digits[i]),
        digits_value(digits.take(k)) <= u64::MAX,
    ensures
        ({
            let n = read_digits(digits.skip(k), digits_value(digits.take(k)));
            let fine = (forall|i: int| 0 <= i < digits.len() ==> is_digit(#[trigger] digits[i]))
                && digits_value(digits) <= u64::MAX;
            &&& n is Ok <==> fine
            &&& n is Ok ==> n->Ok_0 == digits_value(digits)
        }),
    decreases digits.len() - k,
{
    let rest = digits.skip(k);
    if k == digits.len() {
        assert(digits.take(k) == digits);
    } else if is_digit(digits[k]) {
        assert(digits.take(k + 1).drop_last() == digits.take(k));
        assert(rest.drop_first() == digits.skip(k + 1));
        if digits_value(digits.take(k + 1)) <= u64::MAX {
            lemma_read_from(digits, k + 1);
        } else if forall|i: int| 0 <= i < digits.len() ==> is_digit(#[trigger] digits[i]) {
            lemma_value_grows(digits, k + 1);
        }
    } else {
        assert(!is_digit(digits[k]));
    }
}

proof fn lemma_value_grows(digits: Seq<char>, k: int)
    requires
        0 <= k <= digits.len(),
        forall|i: int| 0 <= i < digits.len() ==> is_digit(#[trigger] digits[i]),
    ensures
        digits_value(digits.take(k)) <= digits_value(digits),
    decreases digits.len() - k,
{
    if k == digits.len() {
        assert(digits.take(k) == digits);
    } else {
        assert(digits.take(k + 1).drop_last() == digits.take(k));
        lemma_value_grows(digits, k + 1);
    }
}

/// A number that was written in decimal notation is read back, with or without a plus sign.
pub proof fn law_decimal_round_trip(n: u64)
    ensures
        read_number(decimal(n as nat)) == Ok::<u64, NumberError>(n),
        read_number(seq!['+'] + decimal(n as nat)) == Ok::<u64, NumberError>(n),
{
    let s = decimal(n as nat);
    lemma_decimal_digits(n as nat);
    law_read_digits(s);
    assert(is_digit(s[0]));
    assert((seq!['+'] + s).drop_first() == s);
}

/// Decimal notation is a non-empty digit sequence of the number's value.
pub proof fn lemma_decimal_digits(n: nat)
    ensures
        decimal(n).len() > 0,
        forall|i: int| 0 <= i < decimal(n).len() ==> is_digit(#[trigger] decimal(n)[i]),
        digits_value(decimal(n)) == n,
    decreases n,
{
    if n < 10 {
        assert(seq![digit(n as int)].drop_last().len() == 0);
        assert(digits_value(seq![digit(n as int)].drop_last()) == 0);
    } else {
        lemma_decimal_digits(n / 10);
        assert(decimal(n).drop_last() == decimal(n / 10));
    }
}

/// The decimal notation of a number has the digit of every place of the number, and starts with a
/// zero only for zero itself.
pub proof fn law_decimal_places(n: nat, place: nat)
    ensures
        n > 0 ==> pow(10, (decimal(n).len() - 1) as nat) <= n,
        n < pow(10, decimal(n).len()),
        n == 0 ==> decimal(n).len() == 1,
        place < decimal(n).len() ==> decimal(n)[decimal(n).len() - 1 - place] as int == '0' as int
            + (n as int / pow(10, place)) % 10,
    decreases n,
{
    lemma_pow_positive(10, place);
    lemma_pow0(10);
    lemma_pow1(10);
    if n < 10 {
        assert(decimal(n).len() == 1);
    } else {
        let m = n / 10;
        let length = decimal(m).len();
        lemma_decimal_digits(m);
        assert(decimal(n).len() == length + 1);
        reveal(pow);
        assert(pow(10, length + 1) == 10 * pow(10, length));
        assert(pow(10, length) == 10 * pow(10, (length - 1) as nat));
        if place == 0 {
            law_decimal_places(m, 0);
        } else {
            let lower = (place - 1) as nat;
            law_decimal_places(m, lower);
            lemma_pow_positive(10, lower);
            assert(pow(10, place) == 10 * pow(10, lower));
            lemma_div_denominator(n as int, 10, pow(10, lower));
            assert(n as int / pow(10, place) == (m as int) / pow(10, lower));
            if place < decimal(n).len() {
                assert(decimal(n)[length - place] == decimal(m)[length - 1 - lower]);
            }
        }
    }
}

/// Some zeros.
pub open spec fn zeros(count: nat) -> Seq<char> {
    Seq::new(count, |i: int| '0')
}

proof fn lemma_leading_zeros(count: nat, digits: Seq<char>)
    requires
        forall|i: int| 0 <= i < digits.len() ==> is_digit(#[trigger] digits[i]),
    ensures
        digits_value(zeros(count) + digits) == digits_value(digits),
        forall|i: int|
            0 <= i < count + digits.len() ==> is_digit(#[trigger] (zeros(count) + digits)[i]),
    decreases count + digits.len(),
{
    let whole = zeros(count) + digits;
    if digits.len() > 0 {
        lemma_leading_zeros(count, digits.drop_last());
        assert(whole.drop_last() =~= zeros(count) + digits.drop_last());
    } else if count > 0 {
        let fewer = (count - 1) as nat;
        lemma_leading_zeros(fewer, digits);
        assert(whole.drop_last() =~= zeros(fewer) + digits);
    } else {
        assert(whole =~= digits);
    }
}

/// Reading goes over a run of digits as long as their value fits, and stops where it does not.
proof fn lemma_read_run(run: Seq<char>, k: int, tail: Seq<char>)
    requires
        0 <= k <= run.len(),
        forall|i: int| 0 <= i < run.len() ==> is_digit(#[trigger] run[i]),
        digits_value(run.take(k)) <= u64::MAX,
    ensures
        read_digits(run.skip(k) + tail, digits_value(run.take(k))) == if digits_value(run)
            > u64::MAX {
            Err::<u64, NumberError>(NumberError::TooLarge)
        } else {
            read_digits(tail, digits_value(run))
        },
    decreases run.len() - k,
{
    let rest = run.skip(k) + tail;
    if k == run.len() {
        assert(run.take(k) =~= run);
        assert(rest =~= tail);
    } else {
        assert(rest[0] == run[k]);
        assert(run.take(k + 1).drop_last() =~= run.take(k));
        assert(rest.drop_first() =~= run.skip(k + 1) + tail);
        lemma_value_grows(run, k + 1);
        if digits_value(run.take(k + 1)) <= u64::MAX {
            lemma_read_run(run, k + 1, tail);
        }
    }
}

/// A number is read from its decimal notation, zeros before it or not. A number that does not fit
/// is refused as too large whatever follows it, and a number that fits is refused for a character
/// behind it that is no digit. A plus sign before the digits changes nothing.
pub proof fn law_number_is_read(count: nat, n: nat, tail: Seq<char>)
    requires
        tail.len() > 0 ==> tail[0] < '0' || '9' < tail[0],
    ensures
        ({
            let s = zeros(count) + decimal(n) + tail;
            let expected = if n > u64::MAX {
                Err::<u64, NumberError>(NumberError::TooLarge)
            } else if tail.len() > 0 {
                Err(NumberError::InvalidDigit)
            } else {
                Ok(n as u64)
            };
            read_number(s) == expected && read_number(seq!['+'] + s) == expected
        }),
{
    let run = zeros(count) + decimal(n);
    let s = run + tail;
    lemma_decimal_digits(n);
    lemma_leading_zeros(count, decimal(n));
    assert(run.take(0).len() == 0);
    lemma_read_run(run, 0, tail);
    assert(run.skip(0) =~= run);
    assert(is_digit(run[0]));
    assert(s[0] == run[0]);
    assert((seq!['+'] + s).drop_first() =~= s);
    assert(digits_value(run) == n);
}

/// What has no digit at its start is refused: nothing at all as empty, anything else for its first
/// character, behind a plus sign or not. A plus sign alone is such a character too.
pub proof fn law_no_number_is_refused(tail: Seq<char>)
    requires
        tail.len() > 0 ==> tail[0] < '0' || '9' < tail[0],
    ensures
        read_number(Seq::empty()) == Err::<u64, NumberError>(NumberError::Empty),
        tail.len() > 0 && tail[0] != '+' ==> read_number(tail) == Err::<u64, NumberError>(
            NumberError::InvalidDigit,
        ),
        read_number(seq!['+'] + tail) == Err::<u64, NumberError>(NumberError::InvalidDigit),
{
    assert((seq!['+'] + tail).drop_first() =~= tail);
}

/// The contents of lists are those of their members, one by one.
pub proof fn law_contents_one_by_one<T>(strings: Seq<String>, lists: Seq<Vec<T>>, i: int)
    ensures
        texts(strings).len() == strings.len(),
        0 <= i < strings.len() ==> texts(strings)[i] == strings[i]@,
        contents(lists).len() == lists.len(),
        0 <= i < lists.len() ==> contents(lists)[i] == lists[i]@,
{
}

} // verus!
