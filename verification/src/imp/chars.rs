//! Character iteration over a string slice, with a one-character put-back slot
//! (`itertools::PutBack`), and the UTF-8 length facts that the string encoder needs.

use vstd::prelude::*;
use vstd::utf8::{encode_utf8, encode_scalar, char_is_scalar};
use std::str::Chars;
use itertools::PutBack;
use vstd::std_specs::iter::IteratorSpec;

verus! {

broadcast use vstd::string::group_string_axioms;

#[verifier::external_type_specification]
#[verifier::external_body]
#[verifier::reject_recursive_types(I)]
pub struct ExPutBack<I: Iterator>(PutBack<I>);

/// The characters that a put-back iterator over a string has yet to yield, the
/// put-back slot first.
pub uninterp spec fn put_back_items(p: PutBack<Chars>) -> Seq<char>;

/// Whether the put-back slot of the iterator is occupied.
pub uninterp spec fn put_back_has_top(p: PutBack<Chars>) -> bool;

/// `itertools::put_back(s.chars())`: an iterator over the characters of `s`, with an
/// empty put-back slot.
#[verifier::external_body]
pub(crate) fn put_back_chars<'a>(s: &'a str) -> (p: PutBack<Chars<'a>>)
    ensures
        put_back_items(p) == s@,
        !put_back_has_top(p),
{
    itertools::put_back(s.chars())
}

/// `PutBack::next`: yields the put-back character if there is one, else the next
/// character of the string; afterwards the slot is empty.
#[verifier::external_body]
pub(crate) fn put_back_next<'a>(p: &mut PutBack<Chars<'a>>) -> (r: Option<char>)
    ensures
        !put_back_has_top(*final(p)),
        put_back_items(*old(p)).len() == 0 ==> r is None && put_back_items(*final(p))
            == put_back_items(*old(p)),
        put_back_items(*old(p)).len() > 0 ==> r == Some(put_back_items(*old(p))[0])
            && put_back_items(*final(p)) == put_back_items(*old(p)).drop_first(),
{
    p.next()
}

/// `PutBack::put_back`: stores `c` in the slot, replacing a character already there.
#[verifier::external_body]
pub(crate) fn put_back_char<'a>(p: &mut PutBack<Chars<'a>>, c: char)
    ensures
        put_back_has_top(*final(p)),
        put_back_items(*final(p)) == seq![c] + if put_back_has_top(*old(p)) {
            put_back_items(*old(p)).drop_first()
        } else {
            put_back_items(*old(p))
        },
{
    p.put_back(c)
}

/// The number of characters of `s`.
pub(crate) fn char_count(s: &str) -> (n: usize)
    requires
        encode_utf8(s@).len() <= usize::MAX,
    ensures
        n == s@.len(),
{
    proof {
        lemma_utf8_len_at_least_chars(s@);
    }
    let mut it = s.chars();
    let mut n: usize = 0;
    loop
        invariant
            n <= s@.len() <= usize::MAX,
            it.remaining() == s@.skip(n as int),
            it.obeys_prophetic_iter_laws(),
        decreases s@.len() - n,
    {
        let ghost before = it;
        match it.next() {
            Some(_) => {
                assert(before.remaining().len() > 0);
                assert(s@.skip(n as int).drop_first() =~= s@.skip(n + 1));
                n = n + 1;
            },
            None => {
                assert(before.remaining().len() == 0);
                return n;
            },
        }
    }
}

/// Every character takes at least one byte in UTF-8.
pub proof fn lemma_utf8_len_at_least_chars(s: Seq<char>)
    ensures
        encode_utf8(s).len() >= s.len(),
    decreases s.len(),
{
    if s.len() > 0 {
        char_is_scalar(s[0]);
        lemma_utf8_len_at_least_chars(s.drop_first());
    }
}

/// The UTF-8 width of each character is at most that of the whole string.
pub proof fn lemma_utf8_len_bounds_char(s: Seq<char>, k: int)
    requires
        0 <= k < s.len(),
    ensures
        encode_scalar(s[k] as u32).len() <= encode_utf8(s).len(),
        1 <= encode_scalar(s[k] as u32).len() <= 4,
        (s[k] as u32) <= 0x7F ==> encode_scalar(s[k] as u32).len() == 1,
        0x7F < (s[k] as u32) <= 0x7FF ==> encode_scalar(s[k] as u32).len() == 2,
        0x7FF < (s[k] as u32) ==> encode_scalar(s[k] as u32).len() >= 3,
    decreases s.len(),
{
    char_is_scalar(s[k]);
    if k > 0 {
        lemma_utf8_len_bounds_char(s.drop_first(), k - 1);
        assert(s.drop_first()[k - 1] == s[k]);
    }
}

/// Compares two strings.
pub fn same_text(a: &str, b: &str) -> (r: bool)
    ensures
        r == (a@ == b@),
{
    let x = a.as_bytes();
    let y = b.as_bytes();
    proof {
        vstd::utf8::encode_utf8_decode_utf8(a@);
        vstd::utf8::encode_utf8_decode_utf8(b@);
    }
    if x.len() != y.len() {
        return false;
    }
    let mut i: usize = 0;
    while i < x.len()
        invariant
            x@ == vstd::utf8::encode_utf8(a@),
            y@ == vstd::utf8::encode_utf8(b@),
            x@.len() == y@.len(),
            i <= x@.len(),
            forall|j: int| 0 <= j < i ==> x@[j] == y@[j],
        decreases x@.len() - i,
    {
        if x[i] != y[i] {
            assert(x@[i as int] != y@[i as int]);
            assert(x@ != y@);
            return false;
        }
        i = i + 1;
    }
    assert(x@ =~= y@);
    true
}

} // verus!
