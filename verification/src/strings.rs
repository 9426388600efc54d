//! Small text operations of std that the library builds strings with.

use vstd::prelude::*;

verus! {

/// `String::push`: appends one character.
#[verifier::external_body]
pub(crate) fn push_char(s: &mut String, c: char)
    ensures
        final(s)@ == old(s)@.push(c),
{
    s.push(c)
}

/// Whether two texts hold the same characters, compared byte by byte: two
/// texts with the same UTF-8 bytes have the same characters.
pub(crate) fn str_eq(a: &str, b: &str) -> (r: bool)
    ensures
        r == (a@ == b@),
{
    let x = a.as_bytes();
    let y = b.as_bytes();
    proof {
        vstd::utf8::encode_utf8_decode_utf8(a@);
        vstd::utf8::encode_utf8_decode_utf8(b@);
    }
    if x.len() != y.len() {
        return false;
    }
    let mut i: usize = 0;
    while i < x.len()
        invariant
            i <= x@.len(),
            x@.len() == y@.len(),
            x@ == vstd::utf8::encode_utf8(a@),
            y@ == vstd::utf8::encode_utf8(b@),
            forall|k: int| 0 <= k < i ==> x@[k] == y@[k],
        decreases x@.len() - i,
    {
        if x[i] != y[i] {
            return false;
        }
        i += 1;
    }
    assert(x@ =~= y@);
    true
}

/// The part of `s` before its first `sep`, or all of `s` when it has none.
pub open spec fn before_first(s: Seq<char>, sep: char) -> Seq<char>
    decreases s.len(),
{
    if s.len() == 0 {
        s
    } else if s[0] == sep {
        Seq::empty()
    } else {
        seq![s[0]] + before_first(s.drop_first(), sep)
    }
}

/// The text of `s` up to (not including) its first `sep`, or all of it.
pub fn prefix_before(s: &str, sep: char) -> (r: String)
    ensures
        r@ == before_first(s@, sep),
{
    let mut r = String::new();
    let mut done = false;
    assert(s@.skip(0) =~= s@);
    for c in it: s.chars()
        invariant
            it.seq() == s@,
            !done ==> r@ + before_first(s@.skip(it.index() as int), sep) == before_first(s@, sep),
            done ==> r@ == before_first(s@, sep),
    {
        let ghost i = it.index() as int;
        proof {
            assert(c == s@[i]);
            assert(s@.skip(i).drop_first() =~= s@.skip(i + 1));
            assert(s@.skip(i)[0] == s@[i]);
        }
        if !done {
            if c == sep {
                done = true;
            } else {
                push_char(&mut r, c);
            }
        }
    }
    r
}

/// `s` with every `from` replaced by `to`.
pub open spec fn replace_char(s: Seq<char>, from: char, to: char) -> Seq<char> {
    Seq::new(s.len(), |i: int| if s[i] == from { to } else { s[i] })
}

/// The text of `s` with every `from` replaced by `to`.
pub fn replaced(s: &str, from: char, to: char) -> (r: String)
    ensures
        r@ == replace_char(s@, from, to),
{
    let mut r = String::new();
    for c in it: s.chars()
        invariant
            it.seq() == s@,
            r@ == replace_char(s@.take(it.index() as int), from, to),
    {
        let ghost i = it.index() as int;
        assert(c == s@[i]);
        push_char(&mut r, if c == from { to } else { c });
        assert(r@ =~= replace_char(s@.take(i + 1), from, to));
    }
    assert(s@.take(s@.len() as int) =~= s@);
    r
}

/// `a` followed by `b`, as a new text.
pub fn concat(a: &str, b: &str) -> (r: String)
    ensures
        r@ == a@ + b@,
{
    let mut r = a.to_owned();
    for c in it: b.chars()
        invariant
            it.seq() == b@,
            r@ == a@ + b@.take(it.index() as int),
    {
        let ghost i = it.index() as int;
        assert(c == b@[i]);
        push_char(&mut r, c);
        assert(r@ =~= a@ + b@.take(i + 1));
    }
    assert(b@.take(b@.len() as int) =~= b@);
    r
}

/// `s` begins with `prefix`.
pub open spec fn starts_with(s: Seq<char>, prefix: Seq<char>) -> bool {
    prefix.len() <= s.len() && s.subrange(0, prefix.len() as int) == prefix
}

} // verus!
