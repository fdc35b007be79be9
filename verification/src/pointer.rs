//! How a reference is written: the file, `#`, the path to the components, and the component's name.

use vstd::prelude::*;
use vstd::string::StrSliceExecFns;
use vstd::utf8::{
    decode_utf8, decode_utf8_encode_utf8, decode_utf8_split, encode_utf8, encode_utf8_decode_utf8, encode_utf8_valid_utf8, is_ascii_chars,
    is_ascii_chars_encode_utf8, is_char_boundary, is_char_boundary_iff_not_is_continuation_byte,
    is_char_boundary_start_end_of_seq, valid_utf8_split,
};

verus! {

/// What a reference says. `S` is `String` in a value that is handed out, and a sequence of
/// characters in specifications.
pub enum Pointer<S> {
    /// It is too short for a reference, or has no `#`.
    Malformed,
    /// What follows the `#` cannot be cut behind the path to the components.
    Truncated,
    /// It leads to the component `name` of `file`; where `file` is empty, of the file at hand.
    To { file: S, name: S },
}

impl View for Pointer<String> {
    type V = Pointer<Seq<char>>;

    open spec fn view(&self) -> Pointer<Seq<char>> {
        match self {
            Pointer::Malformed => Pointer::Malformed,
            Pointer::Truncated => Pointer::Truncated,
            Pointer::To { file, name } => Pointer::To { file: file@, name: name@ },
        }
    }
}

/// A text of no more bytes than this is no reference.
pub const SHORTEST: usize = 20;

/// The bytes of the path to the components, which stands between the `#` and the name.
pub const PATH_BYTES: usize = 19;

/// `text` without the slashes at its end.
pub open spec fn without_slashes(text: Seq<char>) -> Seq<char>
    decreases text.len(),
{
    if text.len() > 0 && text.last() == '/' {
        without_slashes(text.drop_last())
    } else {
        text
    }
}

/// What `reference` says.
pub open spec fn pointer(reference: Seq<char>) -> Pointer<Seq<char>> {
    if encode_utf8(reference).len() <= SHORTEST {
        Pointer::Malformed
    } else {
        match reference.index_of_first('#') {
            None => Pointer::Malformed,
            Some(hash) => {
                let fragment = encode_utf8(reference.skip(hash + 1));
                if is_char_boundary(fragment, PATH_BYTES as int) {
                    Pointer::To {
                        file: without_slashes(reference.take(hash)),
                        name: decode_utf8(fragment.skip(PATH_BYTES as int)),
                    }
                } else {
                    Pointer::Truncated
                }
            },
        }
    }
}

/// The first place of `wanted` in `text`.
fn find(text: &str, wanted: char) -> (place: Option<usize>)
    ensures
        match place {
            Some(i) => text@.index_of_first(wanted) == Some(i as int) && i < text@.len(),
            None => text@.index_of_first(wanted) is None,
        },
{
    let length = text.unicode_len();
    let mut i: usize = 0;
    for c in it: text.chars()
        invariant
            i == it.index(),
            it.seq() == text@,
            length == text@.len(),
            forall|j: int| 0 <= j < i ==> text@[j] != wanted,
    {
        if c == wanted {
            proof {
                text@.index_of_first_ensures(wanted);
            }
            return Some(i);
        }
        i = i + 1;
    }
    proof {
        text@.index_of_first_ensures(wanted);
    }
    None
}

/// `text` without the slashes at its end.
fn cut_slashes(text: &str) -> (rest: &str)
    ensures
        rest@ == without_slashes(text@),
{
    let mut end: usize = text.unicode_len();
    assert(text@.take(end as int) == text@);
    while end > 0 && text.get_char(end - 1) == '/'
        invariant
            end <= text@.len(),
            without_slashes(text@.take(end as int)) == without_slashes(text@),
        decreases end,
    {
        assert(text@.take(end as int).drop_last() == text@.take(end - 1));
        end = end - 1;
    }
    text.substring_char(0, end)
}

/// Reads a reference.
pub fn read_reference(reference: &str) -> (read: Pointer<String>)
    ensures
        read@ == pointer(reference@),
{
    if reference.as_bytes().len() <= SHORTEST {
        return Pointer::Malformed;
    }
    match find(reference, '#') {
        None => Pointer::Malformed,
        Some(hash) => {
            let length = reference.unicode_len();
            let left = reference.substring_char(0, hash);
            let right = reference.substring_char(hash + 1, length);
            if right.is_char_boundary(PATH_BYTES) {
                let (_, name) = right.split_at(PATH_BYTES);
                proof {
                    let fragment = encode_utf8(right@);
                    assert(reference@.take(hash as int) == left@);
                    assert(reference@.skip(hash + 1) == right@);
                    assert(encode_utf8(name@) == fragment.skip(PATH_BYTES as int));
                    encode_utf8_decode_utf8(name@);
                }
                Pointer::To { file: cut_slashes(left).to_owned(), name: name.to_owned() }
            } else {
                assert(reference@.skip(hash + 1) == right@);
                Pointer::Truncated
            }
        },
    }
}

/// The encoding of two texts one after the other.
proof fn lemma_encode_concat(a: Seq<char>, b: Seq<char>)
    ensures
        encode_utf8(a + b) == encode_utf8(a) + encode_utf8(b),
    decreases a.len(),
{
    if a.len() == 0 {
        assert(a + b == b);
        assert(encode_utf8(a) + encode_utf8(b) == encode_utf8(b));
    } else {
        assert((a + b).drop_first() == a.drop_first() + b);
        lemma_encode_concat(a.drop_first(), b);
        assert(encode_utf8(a + b) =~= encode_utf8(a) + encode_utf8(b));
    }
}

/// The first `#` of a text that has none before it.
proof fn lemma_first_hash(before: Seq<char>, after: Seq<char>)
    requires
        !before.contains('#'),
    ensures
        (before + seq!['#'] + after).index_of_first('#') == Some(before.len() as int),
        (before + seq!['#'] + after).take(before.len() as int) == before,
        (before + seq!['#'] + after).skip((before.len() + 1) as int) == after,
{
    let text = before + seq!['#'] + after;
    text.index_of_first_ensures('#');
    assert(text[before.len() as int] == '#');
    let hash = text.index_of_first('#')->0;
    if hash < before.len() {
        assert(before[hash] == text[hash]);
    }
}

/// A text with the path to the components in front of a name can be cut there.
proof fn lemma_cut(path: Seq<char>, name: Seq<char>)
    requires
        encode_utf8(path).len() == PATH_BYTES,
    ensures
        is_char_boundary(encode_utf8(path + name), PATH_BYTES as int),
        decode_utf8(encode_utf8(path + name).skip(PATH_BYTES as int)) == name,
{
    let bytes = encode_utf8(path + name);
    lemma_encode_concat(path, name);
    encode_utf8_valid_utf8(path + name);
    encode_utf8_valid_utf8(name);
    assert(bytes.skip(PATH_BYTES as int) == encode_utf8(name));
    encode_utf8_decode_utf8(name);
    if name.len() == 0 {
        assert(path + name == path);
        is_char_boundary_start_end_of_seq(bytes);
    } else {
        assert(bytes[PATH_BYTES as int] == encode_utf8(name)[0]);
        is_char_boundary_iff_not_is_continuation_byte(bytes, PATH_BYTES as int);
        is_char_boundary_iff_not_is_continuation_byte(encode_utf8(name), 0);
    }
}

/// How a reference is written: a file without `#`, then `#components/schemas/`, then the name of the
/// component. It leads to that component of that file, whatever slashes end the file. (Where the
/// file and the name are both empty, there are too few bytes for a reference.)
pub proof fn law_written(file: Seq<char>, name: Seq<char>)
    requires
        !file.contains('#'),
        file.len() > 0 || name.len() > 0,
    ensures
        pointer(file + "#components/schemas/"@ + name) == (Pointer::To { file: without_slashes(file), name }),
{
    let path = "components/schemas/"@;
    reveal_strlit("components/schemas/");
    reveal_strlit("#components/schemas/");
    assert("#components/schemas/"@ =~= seq!['#'] + path);
    let reference = file + "#components/schemas/"@ + name;
    assert(reference =~= file + seq!['#'] + (path + name));
    lemma_first_hash(file, path + name);
    assert(is_ascii_chars(path));
    is_ascii_chars_encode_utf8(path);
    lemma_cut(path, name);
    let middle = "#components/schemas/"@;
    assert(is_ascii_chars(middle));
    is_ascii_chars_encode_utf8(middle);
    lemma_encode_concat(file + middle, name);
    lemma_encode_concat(file, middle);
    lemma_encode_some(file);
    lemma_encode_some(name);
}

/// Only the empty text has no bytes.
proof fn lemma_encode_some(text: Seq<char>)
    ensures
        text.len() > 0 ==> encode_utf8(text).len() > 0,
{
}

/// A reference that names no file leads to the same component, found in a file, as the reference
/// that names that file in front of the same text. The name of the file has no `#` and no slash at
/// its end.
pub proof fn law_local(file: Seq<char>, fragment: Seq<char>)
    requires
        !file.contains('#'),
        without_slashes(file) == file,
        pointer(seq!['#'] + fragment) is To,
    ensures
        pointer(seq!['#'] + fragment)->file == Seq::<char>::empty(),
        pointer(file + seq!['#'] + fragment) == (Pointer::To {
            file,
            name: pointer(seq!['#'] + fragment)->name,
        }),
{
    let none = Seq::<char>::empty();
    assert(none + seq!['#'] + fragment =~= seq!['#'] + fragment);
    lemma_first_hash(none, fragment);
    lemma_first_hash(file, fragment);
    assert(file + seq!['#'] + fragment =~= file + (seq!['#'] + fragment));
    lemma_encode_concat(file, seq!['#'] + fragment);
}

/// Slashes at the end are cut, and nothing else is.
proof fn lemma_without_slashes(text: Seq<char>, slashes: Seq<char>)
    requires
        text.len() > 0 ==> text.last() != '/',
        forall|k: int| 0 <= k < slashes.len() ==> slashes[k] == '/',
    ensures
        without_slashes(text + slashes) == text,
    decreases slashes.len(),
{
    if slashes.len() == 0 {
        assert(text + slashes == text);
    } else {
        assert((text + slashes).last() == '/');
        assert((text + slashes).drop_last() == text + slashes.drop_last());
        lemma_without_slashes(text, slashes.drop_last());
    }
}

/// Where a reference leads: what stands before its first `#`, without the slashes at the end, is the
/// file, and what stands behind the nineteen bytes that follow the `#` is the name.
pub proof fn law_leads(file: Seq<char>, slashes: Seq<char>, path: Seq<char>, name: Seq<char>)
    requires
        !file.contains('#'),
        file.len() > 0 ==> file.last() != '/',
        forall|k: int| 0 <= k < slashes.len() ==> slashes[k] == '/',
        encode_utf8(path).len() == 19,
        encode_utf8(file + slashes + seq!['#'] + path + name).len() > 20,
    ensures
        pointer(file + slashes + seq!['#'] + path + name) == (Pointer::To { file, name }),
{
    let left = file + slashes;
    assert(!left.contains('#')) by {
        if left.contains('#') {
            let k = left.index_of('#');
            if k < file.len() {
                assert(file[k] == '#');
            } else {
                assert(slashes[k - file.len()] == '#');
            }
        }
    }
    assert(file + slashes + seq!['#'] + path + name =~= left + seq!['#'] + (path + name));
    lemma_first_hash(left, path + name);
    lemma_cut(path, name);
    lemma_without_slashes(file, slashes);
}

/// A text is not written as a reference exactly if it has no more than twenty bytes, or no `#`.
pub proof fn law_malformed(reference: Seq<char>)
    ensures
        pointer(reference) is Malformed <==> encode_utf8(reference).len() <= 20 || !reference.contains('#'),
{
    reference.index_of_first_ensures('#');
}

/// A text of enough bytes with a `#` leads somewhere exactly if some characters behind its first `#`
/// take nineteen bytes. Otherwise it cannot be cut.
pub proof fn law_cut(before: Seq<char>, after: Seq<char>)
    requires
        !before.contains('#'),
        encode_utf8(before + seq!['#'] + after).len() > 20,
    ensures
        pointer(before + seq!['#'] + after) is To <==> exists|cut: int|
            0 <= cut <= after.len() && encode_utf8(#[trigger] after.take(cut)).len() == 19,
        pointer(before + seq!['#'] + after) is Truncated <==> forall|cut: int|
            0 <= cut <= after.len() ==> encode_utf8(#[trigger] after.take(cut)).len() != 19,
{
    lemma_first_hash(before, after);
    let bytes = encode_utf8(after);
    encode_utf8_valid_utf8(after);
    if exists|cut: int| 0 <= cut <= after.len() && encode_utf8(#[trigger] after.take(cut)).len() == 19 {
        let cut = choose|cut: int| 0 <= cut <= after.len() && encode_utf8(#[trigger] after.take(cut)).len() == 19;
        lemma_cut(after.take(cut), after.skip(cut));
        assert(after.take(cut) + after.skip(cut) =~= after);
    } else if is_char_boundary(bytes, 19) {
        valid_utf8_split(bytes, 19);
        decode_utf8_split(bytes, 19);
        encode_utf8_decode_utf8(after);
        let first = decode_utf8(bytes.take(19));
        decode_utf8_encode_utf8(bytes.take(19));
        assert(after.take(first.len() as int) =~= first);
        assert(encode_utf8(after.take(first.len() as int)).len() == 19);
    }
}

} // verus!
