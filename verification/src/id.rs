//! Identifiers of pieces of data serialized from the server to the browser.
//!
//! An identifier is a tree path (`"4"`, `"4.0"`, `"4.0.2"`, ...): allocations
//! inside a deferred subtree extend that subtree's anchor, so the same logical
//! resource receives the same identifier on the server and in the browser
//! whatever order the deferred subtrees run in.

use vstd::prelude::*;
use vstd::utf8::encode_utf8;
use vstd::wrapping::usize_specs;
use crate::decimal::{decimal, is_digit, lemma_decimal_digits, lemma_decimal_injective, push_decimal};

verus! {

/// The key of the child `n` of the anchor `anchor`: the anchor, a dot and the
/// decimal `n`; the root anchor (the empty key) has the plain decimal `n` as
/// its children.
pub open spec fn child_key(anchor: Seq<char>, n: nat) -> Seq<char> {
    if anchor.len() == 0 {
        decimal(n)
    } else {
        anchor + seq!['.'] + decimal(n)
    }
}

/// The key of the browser-local identifier number `n`: `c` and the decimal `n`.
pub open spec fn browser_local_key(n: nat) -> Seq<char> {
    seq!['c'] + decimal(n)
}

/// The key handed out inside a throwaway scope.
pub open spec fn throwaway_key() -> Seq<char> {
    seq!['d', 'i', 's', 'c', 'a', 'r', 'd']
}

/// Whether a key lies in the server's identifier tree below the root anchor:
/// it begins with a decimal digit.
pub open spec fn is_tree_key(key: Seq<char>) -> bool {
    key.len() > 0 && is_digit(key[0])
}

/// The hash that turns the UTF-8 bytes of a key into an error identifier:
/// a left fold of `acc * 31 + byte` in wrapping `usize` arithmetic, from 0.
pub open spec fn error_hash(bytes: Seq<u8>) -> usize
    decreases bytes.len(),
{
    if bytes.len() == 0 {
        0
    } else {
        usize_specs::wrapping_add(
            usize_specs::wrapping_mul(error_hash(bytes.drop_last()), 31),
            bytes.last() as usize,
        )
    }
}

/// A unique identifier for a piece of data that will be serialized from the
/// server to the client. Its view is its key.
#[derive(Debug, PartialEq, Eq, Hash)]
pub struct SerializedDataId(String);

impl View for SerializedDataId {
    type V = Seq<char>;

    closed spec fn view(&self) -> Seq<char> {
        self.0@
    }
}

impl Clone for SerializedDataId {
    fn clone(&self) -> (r: Self)
        ensures
            r@ == self@,
    {
        SerializedDataId(self.0.clone())
    }
}

impl Default for SerializedDataId {
    fn default() -> (r: Self)
        ensures
            r@ == Seq::<char>::empty(),
    {
        SerializedDataId(String::new())
    }
}

impl SerializedDataId {
    /// Creates a new root-level identifier: the decimal `id`.
    pub fn new(id: usize) -> (r: Self)
        ensures
            r@ == decimal(id as nat),
    {
        let mut key = String::new();
        push_decimal(&mut key, id as u64);
        SerializedDataId(key)
    }

    /// The serialized key form used in the hydration data payload.
    pub fn as_key(&self) -> (r: &str)
        ensures
            r@ == self@,
    {
        self.0.as_str()
    }

    /// Reconstructs an identifier from its serialized key form.
    pub fn from_key(key: String) -> (r: Self)
        ensures
            r@ == key@,
    {
        SerializedDataId(key)
    }

    /// The identifier of the `n`-th allocation below this anchor.
    pub fn child(&self, n: u64) -> (r: Self)
        ensures
            r@ == child_key(self@, n as nat),
    {
        if self.0.as_str().is_empty() {
            let mut key = String::new();
            push_decimal(&mut key, n);
            proof {
                assert(key@ =~= decimal(n as nat));
            }
            SerializedDataId(key)
        } else {
            let mut key = self.0.clone();
            proof { reveal_strlit("."); }
            key.append(".");
            push_decimal(&mut key, n);
            SerializedDataId(key)
        }
    }

    /// The anchor of the tree's root scope: its children are the plain
    /// top-level identifiers (`"0"`, `"1"`, ...).
    pub fn root_anchor() -> (r: Self)
        ensures
            r@ == Seq::<char>::empty(),
    {
        SerializedDataId(String::new())
    }

    /// A browser-local identifier (`"c0"`, `"c1"`, ...), which can never
    /// collide with an identifier the server serialized.
    pub fn browser_local(n: usize) -> (r: Self)
        ensures
            r@ == browser_local_key(n as nat),
    {
        proof { reveal_strlit("c"); }
        let mut key = String::from_str("c");
        push_decimal(&mut key, n as u64);
        SerializedDataId(key)
    }

    /// The identifier handed out inside a throwaway scope: `"discard"`.
    pub fn throwaway() -> (r: Self)
        ensures
            r@ == throwaway_key(),
    {
        proof { reveal_strlit("discard"); }
        let key = String::from_str("discard");
        proof {
            assert(key@ =~= throwaway_key());
        }
        SerializedDataId(key)
    }

    /// The number an error identifier is built from for this identifier: the
    /// hash of the UTF-8 bytes of its key.
    pub fn error_id(&self) -> (h: usize)
        ensures
            h == error_hash(encode_utf8(self@)),
    {
        let bytes = self.0.as_str().as_bytes();
        let mut acc: usize = 0;
        let mut i: usize = 0;
        while i < bytes.len()
            invariant
                0 <= i <= bytes@.len(),
                bytes@ == encode_utf8(self@),
                acc == error_hash(bytes@.take(i as int)),
            decreases bytes@.len() - i,
        {
            proof {
                assert(bytes@.take(i + 1).drop_last() =~= bytes@.take(i as int));
            }
            acc = acc.wrapping_mul(31).wrapping_add(bytes[i] as usize);
            i = i + 1;
        }
        proof {
            assert(bytes@.take(i as int) =~= bytes@);
        }
        acc
    }
}

/// A decimal representation holds no dot.
proof fn lemma_decimal_has_no_dot(n: nat, i: int)
    requires
        0 <= i < decimal(n).len(),
    ensures
        decimal(n)[i] != '.',
{
    lemma_decimal_digits(n);
    assert(is_digit(decimal(n)[i]));
}

/// Child identifiers determine their anchor and their number: two children
/// are equal only when they extend the same anchor with the same number.
pub proof fn lemma_child_injective(a: Seq<char>, n: nat, b: Seq<char>, m: nat)
    requires
        child_key(a, n) == child_key(b, m),
    ensures
        a == b,
        n == m,
{
    let k = child_key(a, n);
    lemma_decimal_digits(n);
    lemma_decimal_digits(m);
    if a.len() == 0 && b.len() == 0 {
        lemma_decimal_injective(n, m);
    } else if a.len() == 0 {
        assert(k[b.len() as int] == '.');
        lemma_decimal_has_no_dot(n, b.len() as int);
    } else if b.len() == 0 {
        assert(k[a.len() as int] == '.');
        lemma_decimal_has_no_dot(m, a.len() as int);
    } else {
        assert(k.len() == a.len() + 1 + decimal(n).len());
        assert(k.len() == b.len() + 1 + decimal(m).len());
        if a.len() < b.len() {
            assert(k[b.len() as int] == '.');
            assert(k[b.len() as int] == decimal(n)[b.len() - a.len() - 1]);
            lemma_decimal_has_no_dot(n, b.len() - a.len() - 1);
        } else if b.len() < a.len() {
            assert(k[a.len() as int] == '.');
            assert(k[a.len() as int] == decimal(m)[a.len() - b.len() - 1]);
            lemma_decimal_has_no_dot(m, a.len() - b.len() - 1);
        }
        assert(a.len() == b.len());
        assert(a =~= k.subrange(0, a.len() as int));
        assert(b =~= k.subrange(0, b.len() as int));
        assert(decimal(n) =~= k.subrange(a.len() + 1int, k.len() as int));
        assert(decimal(m) =~= k.subrange(b.len() + 1int, k.len() as int));
        lemma_decimal_injective(n, m);
    }
}

/// Every identifier allocated below the root anchor, or below an anchor in
/// the root's tree, is itself in that tree.
pub proof fn lemma_child_stays_in_tree(anchor: Seq<char>, n: nat)
    requires
        anchor.len() == 0 || is_tree_key(anchor),
    ensures
        is_tree_key(child_key(anchor, n)),
{
    lemma_decimal_digits(n);
    if anchor.len() > 0 {
        assert(child_key(anchor, n)[0] == anchor[0]);
    }
}

/// Identifiers in the server's tree never collide with browser-local
/// identifiers nor with throwaway identifiers, and distinct browser-local
/// numbers give distinct identifiers.
pub proof fn lemma_id_kinds_disjoint(anchor: Seq<char>, n: nat, m: nat, k: nat)
    requires
        anchor.len() == 0 || is_tree_key(anchor),
    ensures
        child_key(anchor, n) != browser_local_key(m),
        child_key(anchor, n) != throwaway_key(),
        browser_local_key(m) != throwaway_key(),
        browser_local_key(m) == browser_local_key(k) ==> m == k,
{
    lemma_child_stays_in_tree(anchor, n);
    assert(browser_local_key(m)[0] == 'c');
    assert(throwaway_key()[0] == 'd');
    if browser_local_key(m) == browser_local_key(k) {
        assert(decimal(m) =~= browser_local_key(m).subrange(1, browser_local_key(m).len() as int));
        assert(decimal(k) =~= browser_local_key(k).subrange(1, browser_local_key(k).len() as int));
        lemma_decimal_injective(m, k);
    }
}

/// A root-level identifier is the child of the root anchor with that number.
pub proof fn lemma_new_is_root_child(id: nat)
    ensures
        decimal(id) == child_key(Seq::<char>::empty(), id),
        is_tree_key(decimal(id)),
{
    lemma_decimal_digits(id);
}

} // verus!
