//! Source text as characters, with the byte offset of each character.

use vstd::prelude::*;
use vstd::string::*;
use vstd::utf8::*;

verus! {

broadcast use vstd::string::group_string_axioms;

/// The byte offset, in UTF-8, of the `i`-th character of `t`.
pub open spec fn byte_offset(t: Seq<char>, i: int) -> nat {
    encode_utf8(t.take(i)).len()
}

pub proof fn lemma_encode_concat(a: Seq<char>, b: Seq<char>)
    ensures
        encode_utf8(a + b) == encode_utf8(a) + encode_utf8(b),
    decreases a.len(),
{
    if a.len() == 0 {
        assert(a + b =~= b);
        assert(encode_utf8(a) =~= Seq::<u8>::empty());
        assert(encode_utf8(a) + encode_utf8(b) =~= encode_utf8(b));
    } else {
        lemma_encode_concat(a.drop_first(), b);
        assert((a + b).drop_first() =~= a.drop_first() + b);
        assert(encode_utf8(a + b) =~= encode_scalar(a[0] as u32) + encode_utf8(
            a.drop_first() + b,
        ));
        assert(encode_utf8(a) + encode_utf8(b) =~= encode_scalar(a[0] as u32) + (encode_utf8(
            a.drop_first(),
        ) + encode_utf8(b)));
    }
}

/// Moving one character on adds that character's width to the offset.
pub proof fn lemma_offset_step(t: Seq<char>, i: int)
    requires
        0 <= i < t.len(),
    ensures
        byte_offset(t, i + 1) == byte_offset(t, i) + encode_scalar(t[i] as u32).len(),
{
    assert(t.take(i + 1) =~= t.take(i) + seq![t[i]]);
    lemma_encode_concat(t.take(i), seq![t[i]]);
    assert(seq![t[i]].drop_first() =~= Seq::<char>::empty());
    assert(encode_utf8(seq![t[i]]) =~= encode_scalar(t[i] as u32) + encode_utf8(
        Seq::<char>::empty(),
    ));
}

/// Offsets grow with the position, up to the length of the whole text.
pub proof fn lemma_offset_monotone(t: Seq<char>, i: int, j: int)
    requires
        0 <= i <= j <= t.len(),
    ensures
        byte_offset(t, i) <= byte_offset(t, j) <= encode_utf8(t).len(),
{
    assert(t.take(j) =~= t.take(i) + t.subrange(i, j));
    lemma_encode_concat(t.take(i), t.subrange(i, j));
    assert(t =~= t.take(j) + t.subrange(j, t.len() as int));
    lemma_encode_concat(t.take(j), t.subrange(j, t.len() as int));
}

/// The number of bytes that `c` takes in UTF-8.
fn utf8_width(c: char) -> (r: usize)
    ensures
        r == encode_scalar(c as u32).len(),
{
    proof {
        char_is_scalar(c);
    }
    let u = c as u32;
    if u <= 0x7F {
        1
    } else if u <= 0x7FF {
        2
    } else if u <= 0xFFFF {
        3
    } else {
        4
    }
}

/// The characters of `text`, and the byte offset of each character together
/// with that of the end of the text.
pub fn decode(text: &str) -> (r: (Vec<char>, Vec<usize>))
    ensures
        r.0@ == text@,
        r.1@.len() == text@.len() + 1,
        forall|k: int| 0 <= k <= text@.len() ==> #[trigger] r.1@[k] == byte_offset(text@, k),
{
    let mut chars: Vec<char> = Vec::new();
    let mut offsets: Vec<usize> = Vec::new();
    let mut at: usize = 0;
    let total = text.as_bytes().len();
    offsets.push(0);
    proof {
        assert(text@.take(0) =~= Seq::<char>::empty());
        assert(encode_utf8(Seq::<char>::empty()) =~= Seq::<u8>::empty());
    }
    for c in it: text.chars()
        invariant
            it.seq() == text@,
            total == encode_utf8(text@).len(),
            chars@ == text@.take(it.index() as int),
            offsets@.len() == chars@.len() + 1,
            at == offsets@[chars@.len() as int],
            forall|k: int| 0 <= k <= chars@.len() ==> #[trigger] offsets@[k] == byte_offset(text@, k),
    {
        let ghost i = chars@.len() as int;
        proof {
            lemma_offset_step(text@, i);
            lemma_offset_monotone(text@, i + 1, text@.len() as int);
        }
        at = at + utf8_width(c);
        chars.push(c);
        offsets.push(at);
        proof {
            assert(chars@ =~= text@.take(i + 1));
        }
    }
    proof {
        assert(text@.take(text@.len() as int) =~= text@);
    }
    (chars, offsets)
}

} // verus!
