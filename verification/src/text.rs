use vstd::prelude::*;
use vstd::std_specs::iter::IteratorSpec;
use vstd::utf8::*;

verus! {

broadcast use vstd::string::group_string_axioms;

/// A character in Unicode general category `Cc` (control codes):
/// U+0000..=U+001F and U+007F..=U+009F.
pub open spec fn is_control(c: char) -> bool {
    c <= '\u{1f}' || ('\u{7f}' <= c && c <= '\u{9f}')
}

/// A character that editable text may hold: anything but a control code,
/// except line feed and tab.
pub open spec fn allowed_char(c: char) -> bool {
    !is_control(c) || c == '\n' || c == '\t'
}

/// Text that holds no control character other than LF or TAB.
pub open spec fn valid_chars(s: Seq<char>) -> bool {
    forall|i: int| 0 <= i < s.len() ==> allowed_char(#[trigger] s[i])
}

/// Whether `text` holds no control character other than LF or TAB.
pub fn valid_text(text: &str) -> (ok: bool)
    ensures
        ok == valid_chars(text@),
{
    let mut chars = text.chars();
    let ghost all = text@;
    let ghost mut seen: int = 0;
    assert(chars.remaining() == all);
    loop
        invariant
            all == text@,
            0 <= seen <= all.len(),
            chars.remaining() == all.skip(seen),
            forall|i: int| 0 <= i < seen ==> allowed_char(#[trigger] all[i]),
        decreases all.len() - seen,
    {
        match chars.next() {
            None => {
                assert(all.skip(seen).len() == 0);
                return true;
            },
            Some(c) => {
                assert(c == all[seen] && seen < all.len());
                if !(c > '\u{1f}' && (c < '\u{7f}' || c > '\u{9f}')) && c != '\n' && c != '\t' {
                    assert(!allowed_char(all[seen]));
                    return false;
                }
                proof {
                    seen = seen + 1;
                }
                assert(all.skip(seen) =~= all.skip(seen - 1).drop_first());
            },
        }
    }
}


/// The UTF-8 encoding of `text`.
pub open spec fn utf8(text: Seq<char>) -> Seq<u8> {
    encode_utf8(text)
}

/// The length in UTF-8 bytes of `text`.
pub open spec fn byte_len(text: Seq<char>) -> int {
    encode_utf8(text).len() as int
}

/// Whether byte offset `index` starts a character of `text`, or is its end.
pub open spec fn char_boundary(text: Seq<char>, index: int) -> bool {
    0 <= index <= byte_len(text) && is_char_boundary(encode_utf8(text), index)
}

/// The characters encoded by the first `n` bytes of `text`.
pub open spec fn byte_prefix(text: Seq<char>, n: int) -> Seq<char> {
    decode_utf8(encode_utf8(text).subrange(0, n))
}

/// The characters encoded from byte `n` of `text` to its end.
pub open spec fn byte_suffix(text: Seq<char>, n: int) -> Seq<char> {
    decode_utf8(encode_utf8(text).subrange(n, byte_len(text)))
}

/// UTF-8 encoding distributes over concatenation.
pub proof fn lemma_encode_concat(a: Seq<char>, b: Seq<char>)
    ensures
        encode_utf8(a + b) == encode_utf8(a) + encode_utf8(b),
    decreases a.len(),
{
    if a.len() == 0 {
        assert(a + b =~= b);
        assert(encode_utf8(a) + encode_utf8(b) =~= encode_utf8(b));
    } else {
        lemma_encode_concat(a.drop_first(), b);
        assert((a + b).drop_first() =~= a.drop_first() + b);
        assert((a + b)[0] == a[0]);
        assert(encode_utf8(a + b) =~= encode_scalar(a[0] as u32) + encode_utf8(a.drop_first() + b));
    }
}

/// The encoding of a prefix or suffix cut at a character boundary is the
/// corresponding part of the encoding.
pub proof fn lemma_cut(text: Seq<char>, n: int)
    requires
        char_boundary(text, n),
    ensures
        encode_utf8(byte_prefix(text, n)) == encode_utf8(text).subrange(0, n),
        encode_utf8(byte_suffix(text, n)) == encode_utf8(text).subrange(n, byte_len(text)),
        byte_len(byte_prefix(text, n)) == n,
        byte_len(byte_suffix(text, n)) == byte_len(text) - n,
        byte_prefix(text, n) + byte_suffix(text, n) == text,
{
    let bytes = encode_utf8(text);
    encode_utf8_valid_utf8(text);
    valid_utf8_split(bytes, n);
    decode_utf8_encode_utf8(bytes.subrange(0, n));
    decode_utf8_encode_utf8(bytes.subrange(n, bytes.len() as int));
    decode_utf8_split(bytes, n);
    encode_utf8_decode_utf8(text);
}

/// Whether a byte offset is a character boundary of a suffix cut at a
/// character boundary agrees with the whole text, shifted by the cut.
pub proof fn lemma_suffix_boundary(text: Seq<char>, n: int, i: int)
    requires
        char_boundary(text, n),
        n <= i <= byte_len(text),
    ensures
        char_boundary(byte_suffix(text, n), i - n) <==> char_boundary(text, i),
{
    let bytes = encode_utf8(text);
    let tail = bytes.subrange(n, bytes.len() as int);
    lemma_cut(text, n);
    encode_utf8_valid_utf8(text);
    valid_utf8_split(bytes, n);
    is_char_boundary_start_end_of_seq(tail);
    is_char_boundary_start_end_of_seq(bytes);
    if i == byte_len(text) || i == n {
    } else {
        is_char_boundary_iff_not_is_continuation_byte(tail, i - n);
        is_char_boundary_iff_not_is_continuation_byte(bytes, i);
    }
}

/// The start and the end of a text are character boundaries.
pub proof fn lemma_ends_are_boundaries(text: Seq<char>)
    ensures
        char_boundary(text, 0),
        char_boundary(text, byte_len(text)),
{
    encode_utf8_valid_utf8(text);
    is_char_boundary_start_end_of_seq(encode_utf8(text));
}


/// The length of `text` in UTF-8 bytes.
pub fn byte_count(text: &str) -> (n: usize)
    ensures
        n == byte_len(text@),
{
    text.as_bytes().len()
}

/// Calls `String::from_utf8`. Trusted, as std documents it: the bytes are
/// accepted exactly when they are valid UTF-8, and the string then holds the
/// characters that they encode.
#[verifier::external_body]
pub(crate) fn string_from_utf8(bytes: Vec<u8>) -> (s: Option<String>)
    ensures
        s is Some <==> valid_utf8(bytes@),
        s matches Some(t) ==> t@ == decode_utf8(bytes@),
{
    String::from_utf8(bytes).ok()
}

/// Calls `String::from_iter` on characters. Trusted, as std documents it: the
/// string holds exactly those characters, in order.
#[verifier::external_body]
pub(crate) fn string_from_chars(chars: Vec<char>) -> (s: String)
    ensures
        s@ == chars@,
{
    String::from_iter(chars)
}

/// The characters of `text`, in order.
pub(crate) fn chars_of(text: &str) -> (v: Vec<char>)
    ensures
        v@ == text@,
{
    let mut chars = text.chars();
    let ghost all = text@;
    let mut v: Vec<char> = Vec::new();
    assert(chars.remaining() == all);
    loop
        invariant
            all == text@,
            v@.len() <= all.len(),
            v@ == all.take(v@.len() as int),
            chars.remaining() == all.skip(v@.len() as int),
        decreases all.len() - v@.len(),
    {
        match chars.next() {
            None => {
                assert(all.skip(v@.len() as int).len() == 0);
                assert(v@ =~= all);
                return v;
            },
            Some(c) => {
                let ghost n = v@.len() as int;
                assert(c == all[n] && n < all.len());
                v.push(c);
                assert(v@ =~= all.take(n + 1));
                assert(all.skip(n + 1) =~= all.skip(n).drop_first());
            },
        }
    }
}

/// `text` with every occurrence of `c` removed, the rest in order.
pub open spec fn without(text: Seq<char>, c: char) -> Seq<char>
    decreases text.len(),
{
    if text.len() == 0 {
        text
    } else if text[0] == c {
        without(text.drop_first(), c)
    } else {
        seq![text[0]] + without(text.drop_first(), c)
    }
}

/// Removing a character from a text that starts with `x`.
pub proof fn lemma_without_prepend(x: char, rest: Seq<char>, c: char)
    ensures
        without(seq![x] + rest, c) == if x == c {
            without(rest, c)
        } else {
            seq![x] + without(rest, c)
        },
{
    let t = seq![x] + rest;
    assert(t[0] == x);
    assert(t.drop_first() =~= rest);
}

/// Removing a character distributes over concatenation.
pub proof fn lemma_without_concat(a: Seq<char>, b: Seq<char>, c: char)
    ensures
        without(a + b, c) == without(a, c) + without(b, c),
    decreases a.len(),
{
    if a.len() == 0 {
        assert(a + b =~= b);
        assert(without(a, c) =~= Seq::<char>::empty());
        assert(Seq::<char>::empty() + without(b, c) =~= without(b, c));
    } else {
        lemma_without_concat(a.drop_first(), b, c);
        assert((a + b)[0] == a[0]);
        assert((a + b).drop_first() =~= a.drop_first() + b);
        if a[0] != c {
            assert(seq![a[0]] + (without(a.drop_first(), c) + without(b, c)) =~= (seq![a[0]]
                + without(a.drop_first(), c)) + without(b, c));
        }
    }
}

/// A text that does not hold `c` loses nothing when `c` is removed.
pub proof fn lemma_without_absent(text: Seq<char>, c: char)
    requires
        !text.contains(c),
    ensures
        without(text, c) == text,
    decreases text.len(),
{
    if text.len() > 0 {
        assert(text[0] != c);
        assert(!text.drop_first().contains(c)) by {
            if text.drop_first().contains(c) {
                let k = choose|k: int| 0 <= k < text.drop_first().len() && text.drop_first()[k] == c;
                assert(text[k + 1] == c);
            }
        }
        lemma_without_absent(text.drop_first(), c);
        assert(seq![text[0]] + text.drop_first() =~= text);
    }
}

} // verus!
