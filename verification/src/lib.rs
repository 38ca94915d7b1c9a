//! String helpers: extracting the suffix of a text starting at the nth
//! newline-delimited line, and truncating a text to a maximum byte width
//! with a trailing `...` marker.

use vstd::prelude::*;
use vstd::string::StrSliceExecFns;
use vstd::string::StringExecFns;
use vstd::utf8::encode_scalar;
use vstd::utf8::encode_utf8;
use vstd::utf8::is_ascii_chars;
use vstd::utf8::is_ascii_chars_encode_utf8;
use vstd::utf8::is_char_boundary;

verus! {

broadcast use vstd::utf8::group_utf8_lib;

/// How many line-break characters (`'\n'` exactly; carriage returns are not
/// special) occur in `s`.
pub open spec fn newline_count(s: Seq<char>) -> nat
    decreases s.len(),
{
    if s.len() == 0 {
        0
    } else {
        (if s[0] == '\n' {
            1nat
        } else {
            0nat
        }) + newline_count(s.drop_first())
    }
}

/// The suffix of `s` that starts right after its `n`th line break, or `None`
/// when `s` holds fewer than `n` line breaks. Index `0` names the whole text.
pub open spec fn line_suffix(s: Seq<char>, n: nat) -> Option<Seq<char>>
    decreases s.len(),
{
    if n == 0 {
        Some(s)
    } else if s.len() == 0 {
        None
    } else if s[0] == '\n' {
        line_suffix(s.drop_first(), (n - 1) as nat)
    } else {
        line_suffix(s.drop_first(), n)
    }
}

/// A line suffix exists exactly when the requested index does not exceed the
/// number of line breaks in the text: `line_suffix(s, n)` is `Some` if and
/// only if `n <= newline_count(s)`.
pub proof fn lemma_line_suffix_some_iff(s: Seq<char>, n: nat)
    ensures
        line_suffix(s, n) is Some <==> n <= newline_count(s),
    decreases s.len(),
{
    if n == 0 {
    } else if s.len() == 0 {
    } else if s[0] == '\n' {
        lemma_line_suffix_some_iff(s.drop_first(), (n - 1) as nat);
    } else {
        lemma_line_suffix_some_iff(s.drop_first(), n);
    }
}

/// Returns the suffix of `s` that starts right after its `n`th (1-based in
/// breaks, 0 meaning the whole text) line break, or `None` when `s` has fewer
/// than `n` line breaks.
pub fn from_line_n<'a>(s: &'a str, n: usize) -> (r: Option<&'a str>)
    ensures
        r is Some <==> line_suffix(s@, n as nat) is Some,
        r matches Some(t) ==> line_suffix(s@, n as nat) == Some(t@),
        r is Some <==> n as nat <= newline_count(s@),
        n == 0 ==> (r matches Some(t) && t@ == s@),
{
    proof {
        lemma_line_suffix_some_iff(s@, n as nat);
    }
    if n == 0 {
        return Some(s);
    }
    let len = s.unicode_len();
    let mut m: usize = 0;
    let mut i: usize = 0;
    proof {
        assert(s@.subrange(0, len as int) =~= s@);
    }
    while i < len
        invariant
            m < n,
            i <= len,
            len as nat == s@.len(),
            line_suffix(s@, n as nat) == line_suffix(
                s@.subrange(i as int, len as int),
                (n - m) as nat,
            ),
        decreases len - i,
    {
        proof {
            assert(s@.subrange(i as int, len as int).drop_first() =~= s@.subrange(
                i as int + 1,
                len as int,
            ));
            assert(s@.subrange(i as int, len as int)[0] == s@[i as int]);
        }
        let c = s.get_char(i);
        if c == '\n' {
            proof {
                assert(line_suffix(s@, n as nat) == line_suffix(
                    s@.subrange(i as int + 1, len as int),
                    (n - m - 1) as nat,
                ));
            }
            m = m + 1;
            if m == n {
                proof {
                    lemma_line_suffix_some_iff(s@, n as nat);
                }
                return Some(s.substring_char(i + 1, len));
            }
        }
        i = i + 1;
    }
    proof {
        assert(s@.subrange(len as int, len as int) =~= Seq::<char>::empty());
    }
    None
}

/// What truncation of a text's UTF-8 encoding to `width` bytes yields: the
/// encoding itself when it fits, otherwise its first `width` bytes, the last
/// three of which are replaced by the `...` marker whenever there is room for
/// one.
pub open spec fn truncated_bytes(b: Seq<u8>, width: nat) -> Seq<u8> {
    if b.len() <= width {
        b
    } else if width <= 3 {
        b.take(width as int)
    } else {
        b.take(width - 3) + encode_utf8(seq!['.', '.', '.'])
    }
}

/// Truncating any non-empty encoding to width zero yields the empty sequence.
pub proof fn lemma_truncated_zero_width(b: Seq<u8>)
    requires
        b.len() > 0,
    ensures
        truncated_bytes(b, 0) == Seq::<u8>::empty(),
{
    assert(truncated_bytes(b, 0) =~= Seq::<u8>::empty());
}

/// Truncation is a stable fixed point: truncating an already-truncated
/// encoding again with the same width changes nothing.
pub proof fn lemma_truncated_idempotent(b: Seq<u8>, width: nat)
    ensures
        truncated_bytes(truncated_bytes(b, width), width) == truncated_bytes(b, width),
{
    if b.len() > width {
        assert(is_ascii_chars(seq!['.', '.', '.']));
        is_ascii_chars_encode_utf8(seq!['.', '.', '.']);
        assert(truncated_bytes(b, width).len() == width);
    }
}

/// The UTF-8 encoding of a concatenation is the concatenation of the UTF-8
/// encodings.
proof fn lemma_encode_utf8_concat(a: Seq<char>, b: Seq<char>)
    ensures
        encode_utf8(a + b) == encode_utf8(a) + encode_utf8(b),
    decreases a.len(),
{
    if a.len() == 0 {
        assert(a + b =~= b);
        assert(encode_utf8(a) + encode_utf8(b) =~= encode_utf8(b));
    } else {
        assert((a + b).drop_first() =~= a.drop_first() + b);
        lemma_encode_utf8_concat(a.drop_first(), b);
        assert(encode_utf8(a + b) =~= encode_scalar((a + b)[0] as u32) + encode_utf8(
            (a + b).drop_first(),
        ));
        assert(encode_utf8(a) + encode_utf8(b) =~= encode_scalar(a[0] as u32) + (encode_utf8(
            a.drop_first(),
        ) + encode_utf8(b)));
    }
}

/// Truncates `s` to at most `width` bytes of its UTF-8 encoding. Returns `s`
/// unchanged when its encoding already fits; otherwise the result's encoding
/// is exactly the first `width` bytes of `s`'s, with the trailing three
/// replaced by the `...` marker when `width` leaves room for one. A width
/// whose cut point would fall inside a multi-byte character is excluded:
/// there the byte slicing has no defined result.
pub fn partial_str(s: &str, width: usize) -> (r: String)
    requires
        encode_utf8(s@).len() <= usize::MAX,
        encode_utf8(s@).len() > width && width <= 3 ==> is_char_boundary(
            encode_utf8(s@),
            width as int,
        ),
        encode_utf8(s@).len() > width && width > 3 ==> is_char_boundary(
            encode_utf8(s@),
            width - 3,
        ),
    ensures
        encode_utf8(r@) == truncated_bytes(encode_utf8(s@), width as nat),
        encode_utf8(s@).len() <= width ==> r@ == s@,
        encode_utf8(s@).len() > width ==> encode_utf8(r@).len() == width,
{
    let blen = s.len();
    if blen <= width {
        return s.to_owned();
    }
    if width <= 3 {
        let parts = s.split_at(width);
        return parts.0.to_owned();
    }
    let parts = s.split_at(width - 3);
    let mut r = parts.0.to_owned();
    r.append("...");
    proof {
        reveal_strlit("...");
        assert("..."@ =~= seq!['.', '.', '.']);
        lemma_encode_utf8_concat(parts.0@, "..."@);
        assert(is_ascii_chars(seq!['.', '.', '.']));
        is_ascii_chars_encode_utf8(seq!['.', '.', '.']);
        assert(encode_utf8(r@) =~= truncated_bytes(encode_utf8(s@), width as nat));
    }
    r
}

} // verus!
