//! Text of the diagnostics printed when hydration finds an unexpected node.

use vstd::prelude::*;
use vstd::utf8::{decode_utf8, encode_utf8, encode_utf8_decode_utf8, is_char_boundary};
use crate::decimal::{decimal, push_decimal};

verus! {

/// How many bytes of an element's outer HTML a trace shows.
pub const OUTER_HTML_LIMIT: usize = 500;

/// The note that replaces the rest of a truncated outer HTML of `total`
/// bytes: `…[truncated, total {total}b]`.
pub open spec fn truncation_note(total: nat) -> Seq<char> {
    seq!['…', '[', 't', 'r', 'u', 'n', 'c', 'a', 't', 'e', 'd', ',', ' ', 't', 'o', 't', 'a', 'l', ' ']
        + decimal(total) + seq!['b', ']']
}

/// The outer HTML of a parent element as a trace shows it: whole when it
/// fits in the limit, otherwise its first `OUTER_HTML_LIMIT` bytes followed
/// by a note of its total length. The limit must fall on a character
/// boundary.
pub fn truncate_outer_html(outer: String) -> (r: String)
    requires
        encode_utf8(outer@).len() <= usize::MAX,
        encode_utf8(outer@).len() > OUTER_HTML_LIMIT ==> is_char_boundary(encode_utf8(outer@), OUTER_HTML_LIMIT as int),
    ensures
        encode_utf8(outer@).len() <= OUTER_HTML_LIMIT ==> r@ == outer@,
        encode_utf8(outer@).len() > OUTER_HTML_LIMIT ==> r@ == decode_utf8(encode_utf8(outer@).take(OUTER_HTML_LIMIT as int))
            + truncation_note(encode_utf8(outer@).len()),
{
    let len = outer.as_str().len();
    if len > OUTER_HTML_LIMIT {
        let (head, _) = outer.as_str().split_at(OUTER_HTML_LIMIT);
        let mut r = head.to_owned();
        proof {
            encode_utf8_decode_utf8(head@);
            assert(r@ == decode_utf8(encode_utf8(outer@).take(OUTER_HTML_LIMIT as int)));
            reveal_strlit("…[truncated, total ");
            reveal_strlit("b]");
        }
        let ghost r0 = r@;
        r.append("…[truncated, total ");
        assert(r@ == r0 + "…[truncated, total "@);
        push_decimal(&mut r, len as u64);
        r.append("b]");
        proof {
            assert("…[truncated, total "@ =~= seq!['…', '[', 't', 'r', 'u', 'n', 'c', 'a', 't', 'e', 'd', ',', ' ', 't', 'o', 't', 'a', 'l', ' ']);
            assert("b]"@ =~= seq!['b', ']']);
            assert(len == encode_utf8(outer@).len());
            assert(r@ =~= decode_utf8(encode_utf8(outer@).take(OUTER_HTML_LIMIT as int))
                + truncation_note(encode_utf8(outer@).len()));
        }
        r
    } else {
        outer
    }
}

} // verus!
