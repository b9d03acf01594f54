use vstd::prelude::*;
use vstd::std_specs::iter::IteratorSpec;

verus! {

/// Relies on `String::push`: appends one character at the end.
#[verifier::external_body]
pub(crate) fn push_char(s: &mut String, c: char)
    ensures
        final(s)@ == old(s)@.push(c),
{
    s.push(c)
}

/// The characters of `s`, in order.
pub fn chars_of(s: &str) -> (r: Vec<char>)
    ensures
        r@ == s@,
{
    let n = s.unicode_len();
    let mut it = s.chars();
    let mut r: Vec<char> = Vec::new();
    while r.len() < n
        invariant
            n == s@.len(),
            r@ + it.remaining() == s@,
            r@.len() + it.remaining().len() == n,
            it.obeys_prophetic_iter_laws(),
        ensures
            r@ + it.remaining() == s@,
            it.remaining().len() == 0,
        decreases n - r.len(),
    {
        match it.next() {
            Some(c) => {
                r.push(c);
            },
            None => {
                assert(it.remaining().len() == 0);
                break;
            },
        }
    }
    assert(r@ =~= s@) by {
        assert(r@ + it.remaining() =~= r@);
    }
    r
}

/// A new string holding `chars[start..end]`.
pub fn string_of(chars: &Vec<char>, start: usize, end: usize) -> (r: String)
    requires
        start <= end <= chars@.len(),
    ensures
        r@ == chars@.subrange(start as int, end as int),
{
    let mut r = String::new();
    let mut i = start;
    while i < end
        invariant
            start <= i <= end <= chars@.len(),
            r@ == chars@.subrange(start as int, i as int),
        decreases end - i,
    {
        push_char(&mut r, chars[i]);
        i += 1;
        assert(r@ =~= chars@.subrange(start as int, i as int));
    }
    r
}

/// Whether `chars[start..end]` spells `word`.
pub fn spells(chars: &Vec<char>, start: usize, end: usize, word: &str) -> (r: bool)
    requires
        start <= end <= chars@.len(),
    ensures
        r == (chars@.subrange(start as int, end as int) == word@),
{
    let n = word.unicode_len();
    if end - start != n {
        return false;
    }
    let mut i: usize = 0;
    while i < n
        invariant
            n == word@.len(),
            end - start == n,
            start <= end <= chars@.len(),
            i <= n,
            forall|j: int| 0 <= j < i ==> chars@[start + j] == word@[j],
        decreases n - i,
    {
        if chars[start + i] != word.get_char(i) {
            assert(chars@.subrange(start as int, end as int)[i as int] != word@[i as int]);
            return false;
        }
        i += 1;
    }
    assert(chars@.subrange(start as int, end as int) =~= word@);
    true
}

} // verus!
