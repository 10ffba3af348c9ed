//! File paths as Unix systems have them: byte strings whose components are parted by slashes.

use crate::text::contents;
use crate::text::join;
use crate::text::law_split_at_first;
use crate::text::split;
use crate::text::split_bytes;
use crate::text::lemma_split_after_separator;
use crate::text::lemma_split_append;
use crate::text::lemma_split_is_not_empty;
use vstd::prelude::*;
use vstd::utf8::decode_utf8;
use vstd::utf8::encode_utf8;
use vstd::utf8::encode_utf8_decode_utf8;
use vstd::utf8::encode_utf8_valid_utf8;
use vstd::utf8::valid_utf8;

verus! {

/// The byte between two components.
pub const SLASH: u8 = 47;

/// The byte of the component that means the current directory.
pub const DOT: u8 = 46;

/// The text that `String::from_utf8_lossy` gives for `bytes`.
pub uninterp spec fn lossy_utf8(bytes: Seq<u8>) -> Seq<char>;

/// The text of `bytes`: what they encode where they are UTF-8, else their text with replacement
/// characters for what is no UTF-8.
pub open spec fn text_of(bytes: Seq<u8>) -> Seq<char> {
    if valid_utf8(bytes) {
        decode_utf8(bytes)
    } else {
        lossy_utf8(bytes)
    }
}

/// Whether `text` starts with the text of every valid beginning of `bytes`, and ends with that of
/// every valid end.
pub open spec fn keeps_valid_ends(bytes: Seq<u8>, text: Seq<char>) -> bool {
    &&& forall|start: Seq<char>| #[trigger]
        encode_utf8(start).is_prefix_of(bytes) ==> start.is_prefix_of(text)
    &&& forall|end: Seq<char>| #[trigger]
        encode_utf8(end).is_suffix_of(bytes) ==> end.is_suffix_of(text)
}

/// `String::from_utf8_lossy` decodes UTF-8. Where the bytes are valid the result is the text that
/// they encode. Elsewhere the standard library puts U+FFFD in the place of every invalid sequence
/// and keeps the rest: the result starts with the text of every valid beginning of the bytes and
/// ends with that of every valid end. Where one invalid sequence stops and the next starts is left
/// to the name `lossy_utf8`.
#[verifier::external_body]
pub(crate) fn decode_lossy(bytes: &[u8]) -> (s: String)
    ensures
        s@ == (if valid_utf8(bytes@) {
            decode_utf8(bytes@)
        } else {
            lossy_utf8(bytes@)
        }),
        keeps_valid_ends(bytes@, s@),
{
    String::from_utf8_lossy(bytes).into_owned()
}

/// A path: the bytes that the operating system knows it by.
#[derive(Debug, PartialEq, Eq)]
pub struct RawPath {
    bytes: Vec<u8>,
}

impl View for RawPath {
    type V = Seq<u8>;

    closed spec fn view(&self) -> Seq<u8> {
        self.bytes@
    }
}

/// The contents of a sequence of paths.
pub open spec fn raw(paths: Seq<RawPath>) -> Seq<Seq<u8>> {
    paths.map_values(|p: RawPath| p@)
}

/// The contents of a sequence of byte strings.
pub open spec fn byte_strings(v: Seq<Vec<u8>>) -> Seq<Seq<u8>> {
    contents(v)
}

/// Whether a path leaves the directory that it is joined to and starts at the root.
pub open spec fn is_absolute(path: Seq<u8>) -> bool {
    path.len() > 0 && path[0] == SLASH
}

/// `path` as seen from the directory `base`.
pub open spec fn joined(base: Seq<u8>, path: Seq<u8>) -> Seq<u8> {
    if is_absolute(path) {
        path
    } else if base.len() == 0 || base.last() == SLASH {
        base + path
    } else {
        base.push(SLASH) + path
    }
}

/// Whether a piece between two slashes is a component: an empty piece and a dot are none.
pub open spec fn is_component(piece: Seq<u8>) -> bool {
    piece.len() > 0 && piece != seq![DOT]
}

/// The component that a path starts with because of its first bytes: the root directory of an
/// absolute path, the current directory of a path that starts with a dot.
pub open spec fn leading_component(path: Seq<u8>) -> Seq<Seq<u8>> {
    if is_absolute(path) {
        seq![seq![SLASH]]
    } else if split(path, SLASH)[0] == seq![DOT] {
        seq![seq![DOT]]
    } else {
        seq![]
    }
}

/// The components of a path. Repeated and trailing slashes do not count, nor does a dot behind the
/// first component.
pub open spec fn components(path: Seq<u8>) -> Seq<Seq<u8>> {
    leading_component(path) + split(path, SLASH).filter(|piece: Seq<u8>| is_component(piece))
}

/// Whether a component is the name of a file or directory: not the root, a dot or two dots.
pub open spec fn is_normal(component: Seq<u8>) -> bool {
    component != seq![SLASH] && component != seq![DOT] && component != seq![DOT, DOT]
}

/// The texts of the names among the components of a path.
pub open spec fn names(path: Seq<u8>) -> Seq<Seq<char>> {
    components(path).filter(|c: Seq<u8>| is_normal(c)).map_values(|c: Seq<u8>| text_of(c))
}

/// Whether `bytes` can name an entry of a directory.
pub open spec fn is_name(bytes: Seq<u8>) -> bool {
    is_component(bytes) && is_normal(bytes) && !bytes.contains(SLASH)
}

/// Whether `a` comes before `b` in the order of bytes.
pub open spec fn bytes_before(a: Seq<u8>, b: Seq<u8>) -> bool
    decreases a.len(),
{
    if b.len() == 0 {
        false
    } else if a.len() == 0 {
        true
    } else {
        a[0] < b[0] || (a[0] == b[0] && bytes_before(a.drop_first(), b.drop_first()))
    }
}

/// The place of a component's kind in the order of paths: the root, a dot, two dots, names.
pub open spec fn rank(component: Seq<u8>) -> int {
    if component == seq![SLASH] {
        0
    } else if component == seq![DOT] {
        1
    } else if component == seq![DOT, DOT] {
        2
    } else {
        3
    }
}

/// Whether component `a` comes before component `b`.
pub open spec fn component_before(a: Seq<u8>, b: Seq<u8>) -> bool {
    rank(a) < rank(b) || (rank(a) == rank(b) && bytes_before(a, b))
}

/// Whether the components `a` come before the components `b`: the first difference decides, and a
/// path comes before what lies below it.
pub open spec fn components_before(a: Seq<Seq<u8>>, b: Seq<Seq<u8>>) -> bool
    decreases a.len(),
{
    if b.len() == 0 {
        false
    } else if a.len() == 0 {
        true
    } else {
        component_before(a[0], b[0]) || (a[0] == b[0] && components_before(
            a.drop_first(),
            b.drop_first(),
        ))
    }
}

/// Whether path `a` comes before path `b` in the order of paths.
pub open spec fn path_before(a: Seq<u8>, b: Seq<u8>) -> bool {
    components_before(components(a), components(b))
}

/// A copy of some bytes.
pub fn copy_bytes(bytes: &[u8]) -> (copy: Vec<u8>)
    ensures
        copy@ == bytes@,
{
    let mut copy: Vec<u8> = Vec::new();
    push_bytes(&mut copy, bytes);
    copy
}

/// Appends some bytes.
pub fn push_bytes(to: &mut Vec<u8>, bytes: &[u8])
    ensures
        final(to)@ == old(to)@ + bytes@,
{
    let ghost start = to@;
    let mut i: usize = 0;
    while i < bytes.len()
        invariant
            i <= bytes@.len(),
            to@ == start + bytes@.take(i as int),
        decreases bytes@.len() - i,
    {
        to.push(bytes[i]);
        assert(start + bytes@.take(i + 1) == (start + bytes@.take(i as int)).push(
            bytes@[i as int],
        ));
        i += 1;
    }
    assert(bytes@.take(bytes@.len() as int) == bytes@);
}

impl RawPath {
    /// The path with these bytes.
    pub fn new(bytes: Vec<u8>) -> (path: RawPath)
        ensures
            path@ == bytes@,
    {
        RawPath { bytes }
    }

    /// The path that `text` writes.
    pub fn from_text(text: &str) -> (path: RawPath)
        ensures
            path@ == encode_utf8(text@),
    {
        RawPath { bytes: copy_bytes(text.as_bytes()) }
    }

    /// The bytes of the path.
    pub fn as_bytes(&self) -> (bytes: &[u8])
        ensures
            bytes@ == self@,
    {
        self.bytes.as_slice()
    }

    /// An equal path.
    pub fn duplicate(&self) -> (path: RawPath)
        ensures
            path@ == self@,
    {
        RawPath { bytes: copy_bytes(self.bytes.as_slice()) }
    }

    /// The path as text, with replacement characters for what is no UTF-8.
    pub fn text(&self) -> (text: String)
        ensures
            text@ == text_of(self@),
            keeps_valid_ends(self@, text@),
    {
        decode_lossy(self.bytes.as_slice())
    }

    /// `path` as seen from the directory `self`.
    pub fn join(&self, path: &[u8]) -> (whole: RawPath)
        ensures
            whole@ == joined(self@, path@),
    {
        if path.len() > 0 && path[0] == SLASH {
            return RawPath { bytes: copy_bytes(path) };
        }
        let mut bytes = copy_bytes(self.bytes.as_slice());
        if bytes.len() > 0 && bytes[bytes.len() - 1] != SLASH {
            bytes.push(SLASH);
        }
        push_bytes(&mut bytes, path);
        RawPath { bytes }
    }

    /// The components of the path.
    pub fn components(&self) -> (parts: Vec<Vec<u8>>)
        ensures
            byte_strings(parts@) == components(self@),
    {
        let pieces = split_bytes(self.bytes.as_slice(), SLASH);
        let ghost all = split(self@, SLASH);
        let ghost keep = |piece: Seq<u8>| is_component(piece);
        let ghost lead = leading_component(self@);
        proof {
            lemma_split_is_not_empty(self@, SLASH);
            assert(byte_strings(pieces@) == all);
            assert(byte_strings(pieces@)[0] == pieces@[0]@);
        }
        let mut parts: Vec<Vec<u8>> = Vec::new();
        if self.bytes.len() > 0 && self.bytes[0] == SLASH {
            let root = vec![SLASH];
            assert(root@ =~= seq![SLASH]);
            parts.push(root);
        } else if is_dot(pieces[0].as_slice()) {
            let here = vec![DOT];
            assert(here@ =~= seq![DOT]);
            parts.push(here);
        }
        assert(byte_strings(parts@) =~= lead);
        let mut i: usize = 0;
        assert(all.take(0).filter(keep) =~= Seq::empty()) by {
            reveal(Seq::filter);
        }
        assert(byte_strings(parts@) =~= lead + all.take(0).filter(keep));
        while i < pieces.len()
            invariant
                i <= pieces@.len(),
                byte_strings(pieces@) == all,
                keep == (|piece: Seq<u8>| is_component(piece)),
                byte_strings(parts@) == lead + all.take(i as int).filter(keep),
            decreases pieces@.len() - i,
        {
            let piece = pieces[i].as_slice();
            let ghost so_far = byte_strings(parts@);
            proof {
                assert(byte_strings(pieces@)[i as int] == piece@);
                lemma_filter_next(all, keep, i as int);
            }
            if piece.len() > 0 && !is_dot(piece) {
                let copy = copy_bytes(piece);
                parts.push(copy);
                assert(byte_strings(parts@) =~= so_far.push(piece@));
                assert(lead + all.take(i + 1).filter(keep) =~= so_far.push(piece@));
            }
            i += 1;
        }
        assert(all.take(all.len() as int) == all);
        parts
    }
}

/// Filtering one element more.
pub proof fn lemma_filter_next<T>(s: Seq<T>, keep: spec_fn(T) -> bool, i: int)
    requires
        0 <= i < s.len(),
    ensures
        s.take(i + 1).filter(keep) == if keep(s[i]) {
            s.take(i).filter(keep).push(s[i])
        } else {
            s.take(i).filter(keep)
        },
{
    reveal(Seq::filter);
    assert(s.take(i + 1).drop_last() == s.take(i));
    assert(s.take(i + 1).last() == s[i]);
}

fn is_dot(piece: &[u8]) -> (dot: bool)
    ensures
        dot == (piece@ == seq![DOT]),
{
    let dot = piece.len() == 1 && piece[0] == DOT;
    assert(dot ==> piece@ =~= seq![DOT]);
    dot
}

fn is_two_dots(piece: &[u8]) -> (dots: bool)
    ensures
        dots == (piece@ == seq![DOT, DOT]),
{
    let dots = piece.len() == 2 && piece[0] == DOT && piece[1] == DOT;
    assert(dots ==> piece@ =~= seq![DOT, DOT]);
    dots
}

fn is_slash(piece: &[u8]) -> (slash: bool)
    ensures
        slash == (piece@ == seq![SLASH]),
{
    let slash = piece.len() == 1 && piece[0] == SLASH;
    assert(slash ==> piece@ =~= seq![SLASH]);
    slash
}

/// Whether a component is the name of a file or directory.
pub fn is_normal_component(component: &[u8]) -> (normal: bool)
    ensures
        normal == is_normal(component@),
{
    !is_slash(component) && !is_dot(component) && !is_two_dots(component)
}

/// Whether `a` comes before `b` in the order of bytes.
pub fn is_bytes_before(a: &[u8], b: &[u8]) -> (before: bool)
    ensures
        before == bytes_before(a@, b@),
{
    let mut i: usize = 0;
    assert(a@.skip(0) == a@ && b@.skip(0) == b@);
    while i < a.len() && i < b.len()
        invariant
            i <= a@.len(),
            i <= b@.len(),
            bytes_before(a@.skip(i as int), b@.skip(i as int)) == bytes_before(a@, b@),
        decreases a@.len() - i,
    {
        assert(a@.skip(i as int).drop_first() == a@.skip(i + 1));
        assert(b@.skip(i as int).drop_first() == b@.skip(i + 1));
        if a[i] < b[i] {
            return true;
        }
        if b[i] < a[i] {
            return false;
        }
        i += 1;
    }
    i < b.len()
}

fn rank_of(component: &[u8]) -> (place: u8)
    ensures
        place as int == rank(component@),
{
    if is_slash(component) {
        0
    } else if is_dot(component) {
        1
    } else if is_two_dots(component) {
        2
    } else {
        3
    }
}

fn is_component_before(a: &[u8], b: &[u8]) -> (before: bool)
    ensures
        before == component_before(a@, b@),
{
    let left: u8 = rank_of(a);
    let right: u8 = rank_of(b);
    left < right || (left == right && is_bytes_before(a, b))
}

/// Whether the components `a` come before the components `b`.
pub fn is_components_before(a: &Vec<Vec<u8>>, b: &Vec<Vec<u8>>) -> (before: bool)
    ensures
        before == components_before(byte_strings(a@), byte_strings(b@)),
{
    let ghost left = byte_strings(a@);
    let ghost right = byte_strings(b@);
    let mut i: usize = 0;
    assert(left.skip(0) == left && right.skip(0) == right);
    while i < a.len() && i < b.len()
        invariant
            i <= a@.len(),
            i <= b@.len(),
            left == byte_strings(a@),
            right == byte_strings(b@),
            components_before(left.skip(i as int), right.skip(i as int)) == components_before(
                left,
                right,
            ),
        decreases a@.len() - i,
    {
        assert(left.skip(i as int).drop_first() == left.skip(i + 1));
        assert(right.skip(i as int).drop_first() == right.skip(i + 1));
        proof {
            lemma_component_order(left[i as int], right[i as int], left[i as int]);
        }
        if is_component_before(a[i].as_slice(), b[i].as_slice()) {
            return true;
        }
        if is_component_before(b[i].as_slice(), a[i].as_slice()) {
            return false;
        }
        i += 1;
    }
    i < b.len()
}

/// Bytes are ordered strictly and totally.
pub proof fn lemma_bytes_order(a: Seq<u8>, b: Seq<u8>, c: Seq<u8>)
    ensures
        !bytes_before(a, a),
        bytes_before(a, b) ==> !bytes_before(b, a),
        a == b || bytes_before(a, b) || bytes_before(b, a),
        bytes_before(a, b) && bytes_before(b, c) ==> bytes_before(a, c),
    decreases a.len() + b.len() + c.len(),
{
    if a.len() > 0 && b.len() > 0 {
        if c.len() > 0 {
            lemma_bytes_order(a.drop_first(), b.drop_first(), c.drop_first());
        } else {
            lemma_bytes_order(a.drop_first(), b.drop_first(), c);
        }
        if a[0] == b[0] && a.drop_first() == b.drop_first() {
            assert(a =~= seq![a[0]] + a.drop_first());
            assert(b =~= seq![b[0]] + b.drop_first());
        }
    } else if a.len() > 0 {
        lemma_bytes_order(a.drop_first(), b, c);
    } else if b.len() == 0 {
        assert(a =~= b);
    }
}

/// Components are ordered strictly and totally.
pub proof fn lemma_component_order(a: Seq<u8>, b: Seq<u8>, c: Seq<u8>)
    ensures
        !component_before(a, a),
        component_before(a, b) ==> !component_before(b, a),
        a == b || component_before(a, b) || component_before(b, a),
        component_before(a, b) && component_before(b, c) ==> component_before(a, c),
{
    lemma_bytes_order(a, b, c);
}

/// Component sequences are ordered strictly and totally.
pub proof fn lemma_components_order(a: Seq<Seq<u8>>, b: Seq<Seq<u8>>, c: Seq<Seq<u8>>)
    ensures
        !components_before(a, a),
        components_before(a, b) ==> !components_before(b, a),
        a == b || components_before(a, b) || components_before(b, a),
        components_before(a, b) && components_before(b, c) ==> components_before(a, c),
    decreases a.len() + b.len() + c.len(),
{
    if a.len() > 0 && b.len() > 0 {
        if c.len() > 0 {
            lemma_component_order(a[0], b[0], c[0]);
            lemma_components_order(a.drop_first(), b.drop_first(), c.drop_first());
        } else {
            lemma_component_order(a[0], b[0], a[0]);
            lemma_components_order(a.drop_first(), b.drop_first(), c);
        }
        if a[0] == b[0] && a.drop_first() == b.drop_first() {
            assert(a =~= seq![a[0]] + a.drop_first());
            assert(b =~= seq![b[0]] + b.drop_first());
        }
    } else if a.len() > 0 {
        lemma_component_order(a[0], a[0], a[0]);
        lemma_components_order(a.drop_first(), b, c);
    } else if b.len() == 0 {
        assert(a =~= b);
    }
}

/// The order of paths is strict, and two paths that it does not part have the same components.
pub proof fn law_path_order(a: Seq<u8>, b: Seq<u8>, c: Seq<u8>)
    ensures
        !path_before(a, a),
        path_before(a, b) ==> !path_before(b, a),
        components(a) == components(b) || path_before(a, b) || path_before(b, a),
        path_before(a, b) && path_before(b, c) ==> path_before(a, c),
{
    lemma_components_order(components(a), components(b), components(c));
}

/// Joining the name of an entry to a directory adds that name as the last component.
pub proof fn law_join_adds_component(dir: Seq<u8>, name: Seq<u8>)
    requires
        is_name(name),
    ensures
        components(joined(dir, name)) == components(dir).push(name),
{
    let keep = |piece: Seq<u8>| is_component(piece);
    let whole = joined(dir, name);
    assert(!is_absolute(name)) by {
        if is_absolute(name) {
            assert(name.contains(name[0]));
        }
    }
    lemma_split_is_not_empty(dir, SLASH);
    let pieces = split(dir, SLASH);
    if dir.len() == 0 {
        assert(whole == name);
        lemma_split_append(Seq::empty(), name, SLASH);
        assert(Seq::<u8>::empty() + name == name);
        assert(seq![Seq::<u8>::empty()].drop_last().push(name) =~= seq![name]);
        assert(split(name, SLASH) == seq![name]);
        lemma_filter_push(Seq::empty(), keep, name);
        lemma_filter_push(Seq::empty(), keep, Seq::<u8>::empty());
        lemma_filter_empty(keep);
        assert(Seq::<Seq<u8>>::empty().push(name) =~= seq![name]);
        assert(Seq::<Seq<u8>>::empty().push(Seq::<u8>::empty()) =~= split(dir, SLASH));
        assert(components(dir) =~= Seq::empty());
        assert(components(whole) =~= components(dir).push(name));
    } else if dir.last() == SLASH {
        let front = dir.drop_last();
        assert(dir =~= front.push(SLASH));
        lemma_split_after_separator(front, name, SLASH);
        let before = split(front, SLASH);
        lemma_split_is_not_empty(front, SLASH);
        assert(pieces == before.push(Seq::empty()));
        lemma_filter_push(before, keep, name);
        lemma_filter_push(before, keep, Seq::<u8>::empty());
        assert(split(whole, SLASH)[0] == pieces[0]);
        assert(leading_component(whole) == leading_component(dir));
        assert(components(whole) =~= components(dir).push(name));
    } else {
        lemma_split_after_separator(dir, name, SLASH);
        lemma_filter_push(pieces, keep, name);
        assert(split(whole, SLASH)[0] == pieces[0]);
        assert(leading_component(whole) == leading_component(dir));
        assert(components(whole) =~= components(dir).push(name));
    }
}

/// Filtering a sequence with one element more at its end.
pub proof fn lemma_filter_push<T>(s: Seq<T>, keep: spec_fn(T) -> bool, x: T)
    ensures
        s.push(x).filter(keep) == if keep(x) {
            s.filter(keep).push(x)
        } else {
            s.filter(keep)
        },
{
    reveal(Seq::filter);
    assert(s.push(x).drop_last() =~= s);
}

/// Filtering nothing.
pub proof fn lemma_filter_empty<T>(keep: spec_fn(T) -> bool)
    ensures
        Seq::<T>::empty().filter(keep) == Seq::<T>::empty(),
{
    reveal(Seq::filter);
}

/// The text of bytes that encode a text is that text, and of other bytes it is what the standard
/// library makes of them.
pub proof fn law_text_is_what_bytes_encode(text: Seq<char>, bytes: Seq<u8>)
    ensures
        text_of(encode_utf8(text)) == text,
        !valid_utf8(bytes) ==> text_of(bytes) == lossy_utf8(bytes),
{
    encode_utf8_valid_utf8(text);
    encode_utf8_decode_utf8(text);
}

/// The components of a path, slash by slash. A path without slashes is one component, unless it is
/// empty. What stands behind the last slash is one component more, unless it is empty or a dot. A
/// slash at the start is a component of its own.
pub proof fn law_components_by_slash(path: Seq<u8>, last: Seq<u8>)
    requires
        !last.contains(47u8),
    ensures
        components(last) == if last.len() == 0 {
            Seq::<Seq<u8>>::empty()
        } else {
            seq![last]
        },
        components(path.push(47u8) + last) == (if path.len() == 0 {
            seq![seq![47u8]]
        } else {
            components(path)
        }) + (if last.len() == 0 || last == seq![46u8] {
            Seq::<Seq<u8>>::empty()
        } else {
            seq![last]
        }),
{
    let keep = |piece: Seq<u8>| is_component(piece);
    lemma_filter_empty(keep);
    law_split_at_first(last, Seq::empty(), SLASH);
    lemma_filter_push(Seq::empty(), keep, last);
    assert(Seq::<Seq<u8>>::empty().push(last) =~= seq![last]);
    assert(!is_absolute(last)) by {
        if is_absolute(last) {
            assert(last.contains(last[0]));
        }
    }
    assert(seq![last][0] == last);
    assert(components(last) =~= if last.len() == 0 {
        Seq::<Seq<u8>>::empty()
    } else {
        seq![last]
    });
    let whole = path.push(SLASH) + last;
    lemma_split_is_not_empty(path, SLASH);
    lemma_split_after_separator(path, last, SLASH);
    let pieces = split(path, SLASH);
    lemma_filter_push(pieces, keep, last);
    assert(split(whole, SLASH)[0] == pieces[0]);
    if path.len() == 0 {
        assert(whole[0] == SLASH);
        let none = Seq::<u8>::empty();
        assert(pieces =~= Seq::<Seq<u8>>::empty().push(none));
        lemma_filter_push(Seq::empty(), keep, none);
        assert(!is_component(none));
        assert(pieces.filter(keep) =~= Seq::empty());
    } else {
        assert(whole[0] == path[0]);
        assert(leading_component(whole) == leading_component(path));
    }
    assert(components(whole) =~= (if path.len() == 0 {
        seq![seq![47u8]]
    } else {
        components(path)
    }) + (if last.len() == 0 || last == seq![46u8] {
        Seq::<Seq<u8>>::empty()
    } else {
        seq![last]
    }));
}

spec fn normal_texts(parts: Seq<Seq<u8>>) -> Seq<Seq<char>> {
    parts.filter(|c: Seq<u8>| is_normal(c)).map_values(|c: Seq<u8>| text_of(c))
}

proof fn lemma_normal_texts(parts: Seq<Seq<u8>>, part: Seq<u8>)
    ensures
        normal_texts(Seq::empty()) == Seq::<Seq<char>>::empty(),
        normal_texts(parts.push(part)) == if is_normal(part) {
            normal_texts(parts).push(text_of(part))
        } else {
            normal_texts(parts)
        },
{
    let keep = |c: Seq<u8>| is_normal(c);
    lemma_filter_empty(keep);
    lemma_filter_push(parts, keep, part);
    assert(normal_texts(Seq::empty()) =~= Seq::<Seq<char>>::empty());
    assert(normal_texts(parts.push(part)) =~= if is_normal(part) {
        normal_texts(parts).push(text_of(part))
    } else {
        normal_texts(parts)
    });
}

/// The names in a path, slash by slash. What stands between two slashes is a name, whatever its
/// bytes are, unless it is empty, a dot or two dots. The names before a slash come first.
pub proof fn law_names_by_slash(path: Seq<u8>, last: Seq<u8>)
    requires
        !last.contains(47u8),
    ensures
        names(last) == if last.len() == 0 || last == seq![46u8] || last == seq![46u8, 46u8] {
            Seq::<Seq<char>>::empty()
        } else {
            seq![text_of(last)]
        },
        names(path.push(47u8) + last) == names(path) + names(last),
{
    let none = Seq::<Seq<u8>>::empty();
    let root = seq![SLASH];
    let whole = path.push(47u8) + last;
    law_components_by_slash(path, last);
    lemma_normal_texts(none, last);
    lemma_normal_texts(none, root);
    assert(none.push(last) =~= seq![last]);
    assert(none.push(root) =~= seq![root]);
    assert(last != root) by {
        if last == root {
            assert(last.contains(last[0]));
        }
    }
    assert(names(last) == normal_texts(components(last)));
    assert(names(path) == normal_texts(components(path)));
    assert(names(whole) == normal_texts(components(whole)));
    assert(Seq::<Seq<char>>::empty().push(text_of(last)) =~= seq![text_of(last)]);
    let front = if path.len() == 0 {
        seq![root]
    } else {
        components(path)
    };
    assert(normal_texts(front) == names(path)) by {
        if path.len() == 0 {
            law_components_by_slash(path, path);
        }
    }
    lemma_normal_texts(front, last);
    if last.len() == 0 || last == seq![46u8] {
        assert(components(whole) =~= front);
        assert(names(path) + names(last) =~= names(path));
    } else {
        assert(components(whole) =~= front.push(last));
        assert(names(path) + names(last) =~= names(whole));
    }
}

/// The entry names of which a path is made with slashes between them are its components and its
/// names, none left out: an entry name is anything but an empty one, a dot and two dots that has no
/// slash in it.
pub proof fn law_entry_names_make_the_path(entries: Seq<Seq<u8>>)
    requires
        forall|i: int|
            0 <= i < entries.len() ==> (#[trigger] entries[i]).len() > 0 && !entries[i].contains(
                47u8,
            ) && entries[i] != seq![46u8] && entries[i] != seq![46u8, 46u8],
    ensures
        components(join(entries, seq![47u8])) == entries,
        names(join(entries, seq![47u8])) == entries.map_values(|entry: Seq<u8>| text_of(entry)),
    decreases entries.len(),
{
    let slash = seq![47u8];
    let whole = join(entries, slash);
    let texts = entries.map_values(|entry: Seq<u8>| text_of(entry));
    if entries.len() == 0 {
        law_components_by_slash(whole, whole);
        law_names_by_slash(whole, whole);
        assert(components(whole) =~= entries);
        assert(names(whole) =~= texts);
    } else {
        let last = entries.last();
        let front = entries.drop_last();
        assert(last == entries[entries.len() - 1]);
        if entries.len() == 1 {
            law_components_by_slash(whole, last);
            law_names_by_slash(whole, last);
            assert(components(whole) =~= entries);
            assert(names(whole) =~= texts);
        } else {
            let head = join(front, slash);
            assert forall|i: int| 0 <= i < front.len() implies (#[trigger] front[i]).len() > 0
                && !front[i].contains(47u8) && front[i] != seq![46u8] && front[i] != seq![
                46u8,
                46u8,
            ] by {
                assert(front[i] == entries[i]);
            }
            law_entry_names_make_the_path(front);
            assert(whole =~= head.push(47u8) + last);
            assert(head.len() > 0) by {
                if head.len() == 0 {
                    law_components_by_slash(head, head);
                }
            }
            law_components_by_slash(head, last);
            law_names_by_slash(head, last);
            assert(components(whole) =~= entries);
            assert(names(whole) =~= texts);
        }
    }
}

/// What can name an entry of a directory.
pub proof fn law_entry_names(bytes: Seq<u8>)
    ensures
        is_name(bytes) <==> bytes.len() > 0 && !bytes.contains(47u8) && bytes != seq![46u8] && bytes
            != seq![46u8, 46u8],
{
    if bytes == seq![SLASH] {
        assert(bytes.contains(bytes[0]));
    }
}

/// What a path is seen from another directory: there is one slash between the two, that at the end
/// of the directory's path where it has one. From the top directory it is what it is, and a path
/// that starts with a slash is the same from everywhere.
pub proof fn law_join_sets_one_slash(base: Seq<u8>, path: Seq<u8>)
    ensures
        joined(base, seq![47u8] + path) == seq![47u8] + path,
        path.len() == 0 || path[0] != 47u8 ==> {
            &&& joined(Seq::empty(), path) == path
            &&& joined(base.push(47u8), path) == base.push(47u8) + path
            &&& base.len() > 0 && base.last() != 47u8 ==> joined(base, path) == joined(
                base.push(47u8),
                path,
            )
        },
{
    assert(Seq::<u8>::empty() + path =~= path);
}

/// Byte strings are ordered by the first byte in which they differ, and a byte string comes before
/// all that it is the start of.
pub proof fn law_bytes_order(common: Seq<u8>, x: u8, y: u8, s: Seq<u8>, t: Seq<u8>)
    requires
        x < y,
    ensures
        bytes_before(common.push(x) + s, common.push(y) + t),
        !bytes_before(common.push(y) + t, common.push(x) + s),
        bytes_before(common, common.push(x) + s),
        !bytes_before(common.push(x) + s, common),
        !bytes_before(common, common),
    decreases common.len(),
{
    let a = common.push(x) + s;
    let b = common.push(y) + t;
    if common.len() > 0 {
        let rest = common.drop_first();
        law_bytes_order(rest, x, y, s, t);
        assert(a.drop_first() =~= rest.push(x) + s);
        assert(b.drop_first() =~= rest.push(y) + t);
    }
}

proof fn lemma_components_differ(
    common: Seq<Seq<u8>>,
    x: Seq<u8>,
    y: Seq<u8>,
    s: Seq<Seq<u8>>,
    t: Seq<Seq<u8>>,
)
    requires
        x != y,
    ensures
        components_before(common.push(x) + s, common.push(y) + t) == component_before(x, y),
    decreases common.len(),
{
    let a = common.push(x) + s;
    let b = common.push(y) + t;
    if common.len() > 0 {
        let rest = common.drop_first();
        lemma_components_differ(rest, x, y, s, t);
        lemma_component_order(common[0], common[0], common[0]);
        assert(a.drop_first() =~= rest.push(x) + s);
        assert(b.drop_first() =~= rest.push(y) + t);
    }
}

/// Paths are ordered by the first component in which they differ: the root comes first, then a dot,
/// two dots, and the names in the order of their bytes.
pub proof fn law_first_difference_orders_paths(
    a: Seq<u8>,
    b: Seq<u8>,
    common: Seq<Seq<u8>>,
    x: Seq<u8>,
    y: Seq<u8>,
    s: Seq<Seq<u8>>,
    t: Seq<Seq<u8>>,
)
    requires
        components(a) == common.push(x) + s,
        components(b) == common.push(y) + t,
        x != y,
    ensures
        x == seq![47u8] ==> path_before(a, b),
        x == seq![46u8] && y != seq![47u8] ==> path_before(a, b),
        x == seq![46u8, 46u8] && y != seq![47u8] && y != seq![46u8] ==> path_before(a, b),
        y == seq![47u8] || y == seq![46u8] || y == seq![46u8, 46u8] || x == seq![47u8] || x == seq![
            46u8,
        ] || x == seq![46u8, 46u8] || path_before(a, b) == bytes_before(x, y),
{
    lemma_components_differ(common, x, y, s, t);
    assert(seq![46u8].len() == 1 && seq![46u8, 46u8].len() == 2);
    assert(seq![46u8][0] != seq![47u8][0]);
}

proof fn lemma_components_below(a: Seq<Seq<u8>>, b: Seq<Seq<u8>>)
    requires
        b.len() > 0,
    ensures
        components_before(a, a + b),
    decreases a.len(),
{
    if a.len() > 0 {
        lemma_components_below(a.drop_first(), b);
        assert((a + b).drop_first() =~= a.drop_first() + b);
    }
}

/// A path comes before all that lies below it.
pub proof fn law_directory_comes_first(dir: Seq<u8>, path: Seq<u8>, below: Seq<Seq<u8>>)
    requires
        below.len() > 0,
        components(path) == components(dir) + below,
    ensures
        path_before(dir, path),
        !path_before(path, dir),
{
    lemma_components_below(components(dir), below);
    law_path_order(dir, path, dir);
}

/// The contents of lists of paths and of byte strings are those of their members, one by one.
pub proof fn law_raw_one_by_one(paths: Seq<RawPath>, strings: Seq<Vec<u8>>, i: int)
    ensures
        raw(paths).len() == paths.len(),
        0 <= i < paths.len() ==> raw(paths)[i] == paths[i]@,
        byte_strings(strings).len() == strings.len(),
        0 <= i < strings.len() ==> byte_strings(strings)[i] == strings[i]@,
{
}

} // verus!
