//! Places in a source text: where a character of the text without its
//! comments stands in the text as given, and how many bytes lie before it.

use super::parse_tokens::{
    lemma_run_end, run_end, scan_run, string_at, string_expr, strip_comments, CharClass,
};
use crate::share_str::ShareStr;
use vstd::prelude::*;
use vstd::utf8::{char_is_scalar, encode_scalar, encode_utf8};

verus! {

/// The number of bytes that the character `c` takes in UTF-8.
pub open spec fn char_width(c: char) -> nat {
    let u = c as u32;
    if u < 0x80 {
        1
    } else if u < 0x800 {
        2
    } else if u < 0x1_0000 {
        3
    } else {
        4
    }
}

/// The number of bytes that the first `n` characters of `s` take in UTF-8.
pub open spec fn byte_offset(s: Seq<char>, n: int) -> nat
    decreases n,
{
    if n <= 0 || n > s.len() {
        0
    } else {
        byte_offset(s, n - 1) + char_width(s[n - 1])
    }
}

/// More characters take no fewer bytes.
proof fn lemma_byte_offset_grows(s: Seq<char>, a: int, b: int)
    requires
        0 <= a <= b <= s.len(),
    ensures
        byte_offset(s, a) <= byte_offset(s, b),
    decreases b - a,
{
    if a < b {
        lemma_byte_offset_grows(s, a, b - 1);
    }
}

/// A character more makes the text in UTF-8 longer by its width.
proof fn lemma_encoded_length_push(a: Seq<char>, c: char)
    ensures
        encode_utf8(a.push(c)).len() == encode_utf8(a).len() + char_width(c),
    decreases a.len(),
{
    char_is_scalar(c);
    if a.len() == 0 {
        assert(a.push(c).drop_first() =~= Seq::<char>::empty());
        assert(encode_utf8(a.push(c)) == encode_scalar(c as u32) + encode_utf8(
            Seq::<char>::empty(),
        ));
    } else {
        assert(a.push(c).drop_first() =~= a.drop_first().push(c));
        lemma_encoded_length_push(a.drop_first(), c);
    }
}

/// The bytes before the character `n` are the UTF-8 form of the characters
/// before it.
pub proof fn lemma_byte_offset_is_encoded_length(s: Seq<char>, n: int)
    requires
        0 <= n <= s.len(),
    ensures
        byte_offset(s, n) == encode_utf8(s.take(n)).len(),
    decreases n,
{
    if n > 0 {
        lemma_byte_offset_is_encoded_length(s, n - 1);
        assert(s.take(n) =~= s.take(n - 1).push(s[n - 1]));
        lemma_encoded_length_push(s.take(n - 1), s[n - 1]);
    } else {
        assert(s.take(0) =~= Seq::<char>::empty());
    }
}

/// Where in `s` stands the character that is the `at`-th of `s[i..]`
/// without its comments; the end of `s` where there are not so many.
pub open spec fn source_place(s: Seq<char>, i: int, at: int) -> int
    decreases s.len() - i,
{
    if i < 0 || i >= s.len() {
        s.len() as int
    } else if s[i] == '"' {
        match string_at(s, i) {
            None => s.len() as int,
            Some(j) => if at <= j - i {
                i + at
            } else {
                source_place(s, j + 1, at - (j + 1 - i))
            },
        }
    } else if s[i] == '#' {
        proof {
            lemma_run_end(s, i + 1, CharClass::CommentBody);
        }
        source_place(s, run_end(s, i + 1, CharClass::CommentBody), at)
    } else if at <= 0 {
        i
    } else {
        source_place(s, i + 1, at - 1)
    }
}

/// The place found lies in the text and holds the character asked for; it
/// is the end of the text where the text without comments is too short.
pub proof fn lemma_source_place(s: Seq<char>, i: int, at: int)
    requires
        0 <= i <= s.len(),
        0 <= at,
        strip_comments(s, i) is Ok,
    ensures
        i <= source_place(s, i, at) <= s.len(),
        at < strip_comments(s, i)->Ok_0.len() ==> source_place(s, i, at) < s.len() && s[source_place(
            s,
            i,
            at,
        )] == strip_comments(s, i)->Ok_0[at],
        at >= strip_comments(s, i)->Ok_0.len() ==> source_place(s, i, at) == s.len(),
    decreases s.len() - i,
{
    if i < s.len() {
        if s[i] == '"' {
            let j = string_at(s, i)->Some_0;
            lemma_run_end(s, i + 1, CharClass::StringBody);
            let rest = strip_comments(s, j + 1)->Ok_0;
            let quoted = s.subrange(i, j + 1);
            assert(strip_comments(s, i)->Ok_0 == quoted + rest);
            if at <= j - i {
                assert((quoted + rest)[at] == quoted[at]);
            } else {
                lemma_source_place(s, j + 1, at - (j + 1 - i));
                if at < (quoted + rest).len() {
                    assert((quoted + rest)[at] == rest[at - (j + 1 - i)]);
                }
            }
        } else if s[i] == '#' {
            lemma_run_end(s, i + 1, CharClass::CommentBody);
            lemma_source_place(s, run_end(s, i + 1, CharClass::CommentBody), at);
        } else {
            let rest = strip_comments(s, i + 1)->Ok_0;
            assert(strip_comments(s, i)->Ok_0 == seq![s[i]] + rest);
            if at > 0 {
                lemma_source_place(s, i + 1, at - 1);
                if at < (seq![s[i]] + rest).len() {
                    assert((seq![s[i]] + rest)[at] == rest[at - 1]);
                }
            }
        }
    }
}

/// The number of bytes that `c` takes in UTF-8.
fn width_of(c: char) -> (w: usize)
    ensures
        w == char_width(c),
{
    let u = c as u32;
    if u < 0x80 {
        1
    } else if u < 0x800 {
        2
    } else if u < 0x1_0000 {
        3
    } else {
        4
    }
}

/// The number of bytes that the first `n` characters of `s` take in UTF-8.
pub fn byte_offset_of(s: &ShareStr, n: usize) -> (r: usize)
    requires
        n <= s@.len(),
        byte_offset(s@, s@.len() as int) <= usize::MAX,
    ensures
        r == byte_offset(s@, n as int),
{
    let mut total: usize = 0;
    let mut i: usize = 0;
    while i < n
        invariant
            i <= n <= s@.len(),
            total == byte_offset(s@, i as int),
            byte_offset(s@, s@.len() as int) <= usize::MAX,
        decreases n - i,
    {
        proof {
            lemma_byte_offset_grows(s@, i + 1, s@.len() as int);
        }
        total += width_of(s.char_at(i));
        i += 1;
    }
    total
}

/// Where in `raw` stands the character that is the `at`-th of `raw` without
/// its comments; the end of `raw` where there are not so many.
pub fn place_in_source(raw: &ShareStr, at: usize) -> (p: usize)
    ensures
        p == source_place(raw@, 0, at as int),
        p <= raw@.len(),
{
    let n = raw.len();
    let mut i: usize = 0;
    let mut left = at;
    while i < n
        invariant
            i <= n == raw@.len(),
            source_place(raw@, 0, at as int) == source_place(raw@, i as int, left as int),
        decreases n - i,
    {
        let c = raw.char_at(i);
        if c == '"' {
            match string_expr(raw, i) {
                None => {
                    return n;
                },
                Some(j) => {
                    if left <= j - i {
                        return i + left;
                    }
                    left -= j + 1 - i;
                    i = j + 1;
                },
            }
        } else if c == '#' {
            let (j, _) = scan_run(raw, i + 1, CharClass::CommentBody);
            i = j;
        } else if left == 0 {
            return i;
        } else {
            left -= 1;
            i += 1;
        }
    }
    n
}

} // verus!
