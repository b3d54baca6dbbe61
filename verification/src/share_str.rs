//! A window into a shared text.

use std::rc::Rc;
use vstd::prelude::*;
use vstd::std_specs::cmp::PartialEqSpecImpl;

verus! {

/// Immutable text, held as a range of a character buffer that every slice
/// cut from the same text shares.
#[derive(Debug)]
pub struct ShareStr {
    data: Rc<Vec<char>>,
    start: usize,
    end: usize,
}

impl View for ShareStr {
    type V = Seq<char>;

    closed spec fn view(&self) -> Seq<char> {
        self.data@.subrange(self.start as int, self.end as int)
    }
}

/// Appends one character to a `String`, by `String::push`: the new contents
/// are the old ones followed by `c`.
#[verifier::external_body]
pub(crate) fn string_push(s: &mut String, c: char)
    ensures
        final(s)@ == old(s)@.push(c),
{
    s.push(c)
}

/// The characters of `s`, in order.
pub fn chars_of(s: &str) -> (v: Vec<char>)
    ensures
        v@ == s@,
{
    let mut v: Vec<char> = Vec::new();
    for c in it: s.chars()
        invariant
            v@ == it.seq().take(it.index() as int),
            it.seq() == s@,
    {
        v.push(c);
    }
    v
}

/// The string made of the characters `chars[from..to]`.
pub fn string_of(chars: &Vec<char>, from: usize, to: usize) -> (s: String)
    requires
        from <= to <= chars.len(),
    ensures
        s@ == chars@.subrange(from as int, to as int),
{
    let mut s = String::new();
    let mut i: usize = from;
    while i < to
        invariant
            from <= i <= to <= chars.len(),
            s@ == chars@.subrange(from as int, i as int),
        decreases to - i,
    {
        string_push(&mut s, chars[i]);
        i += 1;
        assert(chars@.subrange(from as int, i as int) == chars@.subrange(from as int, i - 1).push(
            chars@[i - 1],
        ));
    }
    s
}

impl ShareStr {
    #[verifier::type_invariant]
    spec fn well_formed(self) -> bool {
        self.start <= self.end <= self.data@.len()
    }

    /// Where this slice begins in the buffer it was cut from.
    pub closed spec fn offset(&self) -> nat {
        self.start as nat
    }

    /// The whole buffer that this slice is a range of.
    pub closed spec fn buffer(&self) -> Seq<char> {
        self.data@
    }

    /// A fresh buffer holding the text of `s`.
    pub fn new(s: &str) -> (r: Self)
        ensures
            r@ == s@,
            r.offset() == 0,
            r.buffer() == s@,
    {
        Self::from_chars(chars_of(s))
    }

    /// A fresh buffer holding `chars`.
    pub fn from_chars(chars: Vec<char>) -> (r: Self)
        ensures
            r@ == chars@,
            r.offset() == 0,
            r.buffer() == chars@,
    {
        let end = chars.len();
        let r = ShareStr { data: Rc::new(chars), start: 0, end };
        assert(r@ =~= chars@);
        r
    }

    /// The number of characters.
    pub fn len(&self) -> (n: usize)
        ensures
            n == self@.len(),
    {
        proof {
            use_type_invariant(self);
        }
        self.end - self.start
    }

    /// Whether the text holds no character.
    pub fn is_empty(&self) -> (b: bool)
        ensures
            b == (self@.len() == 0),
    {
        proof {
            use_type_invariant(self);
        }
        self.end == self.start
    }

    /// The character at index `i`.
    pub fn char_at(&self, i: usize) -> (c: char)
        requires
            i < self@.len(),
        ensures
            c == self@[i as int],
    {
        proof {
            use_type_invariant(self);
        }
        self.data[self.start + i]
    }

    /// The text as an owned string.
    pub fn as_str(&self) -> (s: String)
        ensures
            s@ == self@,
    {
        proof {
            use_type_invariant(self);
        }
        string_of(&self.data, self.start, self.end)
    }

    /// The slice of the same buffer that spans `start..end` of it, if that
    /// range lies within this slice.
    pub fn recognize(&self, start: usize, end: usize) -> (r: Option<Self>)
        ensures
            r is Some <==> self.offset() <= start <= end <= self.offset() + self@.len(),
            r matches Some(t) ==> {
                &&& t.buffer() == self.buffer()
                &&& t.offset() == start
                &&& t@ == self@.subrange(start - self.offset(), end - self.offset())
            },
    {
        proof {
            use_type_invariant(self);
        }
        if start < self.start || end > self.end || start > end {
            return None;
        }
        let t = ShareStr { data: self.data.clone(), start, end };
        assert(t@ =~= self@.subrange(start - self.offset(), end - self.offset()));
        Some(t)
    }

    /// The part `start..end` of this slice, sharing its buffer.
    pub fn clone_range(&self, start: usize, end: usize) -> (r: Self)
        requires
            start <= end <= self@.len(),
        ensures
            r@ == self@.subrange(start as int, end as int),
            r.buffer() == self.buffer(),
            r.offset() == self.offset() + start,
    {
        proof {
            use_type_invariant(self);
        }
        let r = ShareStr {
            data: self.data.clone(),
            start: self.start + start,
            end: self.start + end,
        };
        assert(r@ =~= self@.subrange(start as int, end as int));
        r
    }

    /// Whether the text begins with the characters of `prefix`.
    pub fn starts_with(&self, prefix: &ShareStr) -> (b: bool)
        ensures
            b == prefix@.is_prefix_of(self@),
    {
        let n = prefix.len();
        if n > self.len() {
            return false;
        }
        let mut i: usize = 0;
        while i < n
            invariant
                i <= n == prefix@.len() <= self@.len(),
                forall|j: int| 0 <= j < i ==> self@[j] == prefix@[j],
            decreases n - i,
        {
            if self.char_at(i) != prefix.char_at(i) {
                return false;
            }
            i += 1;
        }
        assert(prefix@ =~= self@.subrange(0, n as int));
        true
    }
}

impl Clone for ShareStr {
    fn clone(&self) -> (r: Self)
        ensures
            r == *self,
    {
        proof {
            use_type_invariant(self);
        }
        ShareStr { data: self.data.clone(), start: self.start, end: self.end }
    }
}

impl PartialEq for ShareStr {
    fn eq(&self, other: &Self) -> (b: bool) {
        let n = self.len();
        if n != other.len() {
            return false;
        }
        let b = self.starts_with(other);
        proof {
            if b {
                assert(self@ =~= other@);
            }
        }
        b
    }
}

impl PartialEqSpecImpl for ShareStr {
    open spec fn obeys_eq_spec() -> bool {
        true
    }

    open spec fn eq_spec(&self, other: &Self) -> bool {
        self@ == other@
    }
}

} // verus!
