//! Pieces of text: what is left of a text without the white space at its
//! start or at its end, behind a prefix, and around a character; and the
//! lines of a text.

use crate::linemap::lemma_boundary_after_ascii;
use vstd::prelude::*;
use vstd::string::*;
use vstd::utf8::*;

verus! {

/// Whether `c` is white space, as Unicode has it: a space, one of the
/// characters from the tabulator to the carriage return, the next line, the
/// no-break space, the Ogham space mark, one of the spaces from the en quad
/// to the hair space, the line separator, the paragraph separator, the
/// narrow no-break space, the medium mathematical space, or the ideographic
/// space.
pub open spec fn whitespace(c: char) -> bool {
    let u = c as u32;
    u == 0x20 || (0x09 <= u <= 0x0d) || u == 0x85 || u == 0xa0 || u == 0x1680 || (0x2000 <= u
        <= 0x200a) || u == 0x2028 || u == 0x2029 || u == 0x202f || u == 0x205f || u == 0x3000
}

/// Whether `c` is white space.
pub fn is_whitespace(c: char) -> (b: bool)
    ensures
        b == whitespace(c),
{
    let u = c as u32;
    u == 0x20 || (0x09 <= u && u <= 0x0d) || u == 0x85 || u == 0xa0 || u == 0x1680 || (0x2000 <= u
        && u <= 0x200a) || u == 0x2028 || u == 0x2029 || u == 0x202f || u == 0x205f || u
        == 0x3000
}

/// Whether `c` is a letter or a digit, as Unicode has it.
pub uninterp spec fn alphanumeric(c: char) -> bool;

/// Whether `c` is a letter or a digit. The call is `char::is_alphanumeric`
/// of std.
#[verifier::external_body]
pub(crate) fn is_alphanumeric(c: char) -> (b: bool)
    ensures
        b == alphanumeric(c),
{
    c.is_alphanumeric()
}

/// Whether two texts are the same.
pub fn same_text(a: &str, b: &str) -> (same: bool)
    ensures
        same == (a@ == b@),
{
    let n = a.unicode_len();
    if n != b.unicode_len() {
        return false;
    }
    let mut k: usize = 0;
    while k < n
        invariant
            k <= n,
            n == a@.len(),
            n == b@.len(),
            forall|i: int| 0 <= i < k ==> a@[i] == b@[i],
        decreases n - k,
    {
        if a.get_char(k) != b.get_char(k) {
            return false;
        }
        k += 1;
    }
    assert(a@ =~= b@);
    true
}

/// The number of characters of white space with which `s` starts.
pub open spec fn white_start(s: Seq<char>) -> nat
    decreases s.len(),
{
    if s.len() > 0 && whitespace(s.first()) {
        1 + white_start(s.drop_first())
    } else {
        0
    }
}

/// The number of characters of white space with which `s` ends.
pub open spec fn white_end(s: Seq<char>) -> nat
    decreases s.len(),
{
    if s.len() > 0 && whitespace(s.last()) {
        1 + white_end(s.drop_last())
    } else {
        0
    }
}

/// `s` without the white space at its start.
pub open spec fn trimmed_start(s: Seq<char>) -> Seq<char> {
    s.skip(white_start(s) as int)
}

/// `s` without the white space at its end.
pub open spec fn trimmed_end(s: Seq<char>) -> Seq<char> {
    s.take(s.len() - white_end(s))
}

/// The white space at the start of a text does not reach beyond the text.
pub proof fn lemma_white_start(s: Seq<char>)
    ensures
        white_start(s) <= s.len(),
    decreases s.len(),
{
    if s.len() > 0 && whitespace(s.first()) {
        lemma_white_start(s.drop_first());
    }
}

/// Where the first `k` characters of a text are white space, the text
/// starts with that much white space and what follows them starts with the
/// rest of it.
proof fn lemma_white_start_skip(s: Seq<char>, k: int)
    requires
        0 <= k <= s.len(),
        forall|i: int| 0 <= i < k ==> whitespace(s[i]),
    ensures
        white_start(s) == k + white_start(s.skip(k)),
    decreases k,
{
    if k == 0 {
        assert(s.skip(0) =~= s);
    } else {
        assert(s.drop_first().skip(k - 1) =~= s.skip(k));
        lemma_white_start_skip(s.drop_first(), k - 1);
    }
}

/// Where the last characters of a text from `k` on are white space, the text
/// ends with that much white space and what stands before them ends with
/// the rest of it.
proof fn lemma_white_end_take(s: Seq<char>, k: int)
    requires
        0 <= k <= s.len(),
        forall|i: int| k <= i < s.len() ==> whitespace(s[i]),
    ensures
        white_end(s) == (s.len() - k) + white_end(s.take(k)),
    decreases s.len() - k,
{
    if k == s.len() {
        assert(s.take(k) =~= s);
    } else {
        assert(s.drop_last().take(k) =~= s.take(k));
        lemma_white_end_take(s.drop_last(), k);
    }
}

/// The text without the white space at its start.
pub fn trim_start<'a>(s: &'a str) -> (r: &'a str)
    ensures
        r@ == trimmed_start(s@),
{
    let n = s.unicode_len();
    let mut k: usize = 0;
    while k < n && is_whitespace(s.get_char(k))
        invariant
            k <= n,
            n == s@.len(),
            forall|i: int| 0 <= i < k ==> whitespace(s@[i]),
        decreases n - k,
    {
        k += 1;
    }
    proof {
        lemma_white_start_skip(s@, k as int);
        assert(white_start(s@.skip(k as int)) == 0);
        assert(s@.subrange(k as int, n as int) =~= s@.skip(k as int));
    }
    s.substring_char(k, n)
}

/// The text without the white space at its end.
pub fn trim_end<'a>(s: &'a str) -> (r: &'a str)
    ensures
        r@ == trimmed_end(s@),
{
    let n = s.unicode_len();
    let mut k: usize = n;
    while k > 0 && is_whitespace(s.get_char(k - 1))
        invariant
            k <= n,
            n == s@.len(),
            forall|i: int| k <= i < n ==> whitespace(s@[i]),
        decreases k,
    {
        k -= 1;
    }
    proof {
        lemma_white_end_take(s@, k as int);
        assert(white_end(s@.take(k as int)) == 0);
        assert(s@.subrange(0, k as int) =~= s@.take(k as int));
    }
    s.substring_char(0, k)
}

/// The number of characters `c` with which `s` ends.
pub open spec fn run_end(s: Seq<char>, c: char) -> nat
    decreases s.len(),
{
    if s.len() > 0 && s.last() == c {
        1 + run_end(s.drop_last(), c)
    } else {
        0
    }
}

/// Where the last characters of a text from `k` on are `c`, the text ends
/// with that many of them and with those that what stands before ends with.
proof fn lemma_run_end_take(s: Seq<char>, c: char, k: int)
    requires
        0 <= k <= s.len(),
        forall|i: int| k <= i < s.len() ==> s[i] == c,
    ensures
        run_end(s, c) == (s.len() - k) + run_end(s.take(k), c),
    decreases s.len() - k,
{
    if k == s.len() {
        assert(s.take(k) =~= s);
    } else {
        assert(s.drop_last().take(k) =~= s.take(k));
        lemma_run_end_take(s.drop_last(), c, k);
    }
}

/// The text without the characters `c` at its end.
pub fn trim_end_matches<'a>(s: &'a str, c: char) -> (r: &'a str)
    ensures
        r@ == s@.take(s@.len() - run_end(s@, c)),
{
    let n = s.unicode_len();
    let mut k: usize = n;
    while k > 0 && s.get_char(k - 1) == c
        invariant
            k <= n,
            n == s@.len(),
            forall|i: int| k <= i < n ==> s@[i] == c,
        decreases k,
    {
        k -= 1;
    }
    proof {
        lemma_run_end_take(s@, c, k as int);
        assert(run_end(s@.take(k as int), c) == 0);
        assert(s@.subrange(0, k as int) =~= s@.take(k as int));
    }
    s.substring_char(0, k)
}

/// `s` starts with `p`.
pub open spec fn is_prefix(p: Seq<char>, s: Seq<char>) -> bool {
    p.len() <= s.len() && s.take(p.len() as int) == p
}

/// What follows the prefix, where the text starts with it.
pub fn strip_prefix<'a>(s: &'a str, prefix: &str) -> (r: Option<&'a str>)
    ensures
        r is Some <==> is_prefix(prefix@, s@),
        r matches Some(rest) ==> rest@ == s@.skip(prefix@.len() as int),
{
    let n = s.unicode_len();
    let m = prefix.unicode_len();
    if m > n {
        return None;
    }
    let mut k: usize = 0;
    while k < m
        invariant
            k <= m <= n,
            n == s@.len(),
            m == prefix@.len(),
            forall|i: int| 0 <= i < k ==> s@[i] == prefix@[i],
        decreases m - k,
    {
        if s.get_char(k) != prefix.get_char(k) {
            proof {
                assert(s@.take(m as int)[k as int] != prefix@[k as int]);
            }
            return None;
        }
        k += 1;
    }
    proof {
        assert(s@.take(m as int) =~= prefix@);
        assert(s@.subrange(m as int, n as int) =~= s@.skip(m as int));
    }
    Some(s.substring_char(m, n))
}

/// The place of the first `c` in `s`; the length of `s` where it holds none.
pub open spec fn index_of(s: Seq<char>, c: char) -> int
    decreases s.len(),
{
    if s.len() == 0 {
        0
    } else if s.first() == c {
        0
    } else {
        1 + index_of(s.drop_first(), c)
    }
}

/// The place of the first `c` lies within the text or at its end.
pub proof fn lemma_index_of(s: Seq<char>, c: char)
    ensures
        0 <= index_of(s, c) <= s.len(),
    decreases s.len(),
{
    if s.len() > 0 && s.first() != c {
        lemma_index_of(s.drop_first(), c);
    }
}

/// Where the first `k` characters of a text are not `c`, the first `c` of
/// the text is the first of what follows them.
proof fn lemma_index_of_skip(s: Seq<char>, c: char, k: int)
    requires
        0 <= k <= s.len(),
        forall|i: int| 0 <= i < k ==> s[i] != c,
    ensures
        index_of(s, c) == k + index_of(s.skip(k), c),
    decreases k,
{
    if k == 0 {
        assert(s.skip(0) =~= s);
    } else {
        assert(s.drop_first().skip(k - 1) =~= s.skip(k));
        lemma_index_of_skip(s.drop_first(), c, k - 1);
    }
}

/// The text before the first `c` and the text behind it, where there is one.
pub fn split_once<'a>(s: &'a str, c: char) -> (r: (&'a str, Option<&'a str>))
    ensures
        r.0@ == s@.take(index_of(s@, c)),
        r.1 is Some <==> index_of(s@, c) < s@.len(),
        r.1 matches Some(rest) ==> rest@ == s@.skip(index_of(s@, c) + 1),
{
    let n = s.unicode_len();
    let mut k: usize = 0;
    while k < n && s.get_char(k) != c
        invariant
            k <= n,
            n == s@.len(),
            forall|i: int| 0 <= i < k ==> s@[i] != c,
        decreases n - k,
    {
        k += 1;
    }
    proof {
        lemma_index_of_skip(s@, c, k as int);
        assert(index_of(s@.skip(k as int), c) == 0);
        assert(s@.subrange(0, k as int) =~= s@.take(k as int));
    }
    let head = s.substring_char(0, k);
    if k < n {
        proof {
            assert(s@.subrange(k + 1, n as int) =~= s@.skip(k + 1));
        }
        (head, Some(s.substring_char(k + 1, n)))
    } else {
        (head, None)
    }
}

/// The place at which `pat` first stands in `s`; the length of `s` where it
/// stands nowhere.
pub open spec fn find(s: Seq<char>, pat: Seq<char>) -> int
    decreases s.len(),
{
    if is_prefix(pat, s) {
        0
    } else if s.len() == 0 {
        0
    } else {
        1 + find(s.drop_first(), pat)
    }
}

/// The place at which `pat` first stands lies within the text or at its end.
pub proof fn lemma_find(s: Seq<char>, pat: Seq<char>)
    ensures
        0 <= find(s, pat) <= s.len(),
    decreases s.len(),
{
    if !is_prefix(pat, s) && s.len() > 0 {
        lemma_find(s.drop_first(), pat);
    }
}

/// Where `pat` stands at none of the first `k` places of a text, it first
/// stands where it first stands in what follows them.
proof fn lemma_find_skip(s: Seq<char>, pat: Seq<char>, k: int)
    requires
        0 <= k <= s.len(),
        forall|i: int| 0 <= i < k ==> !is_prefix(pat, s.skip(i)),
    ensures
        find(s, pat) == k + find(s.skip(k), pat),
    decreases k,
{
    if k == 0 {
        assert(s.skip(0) =~= s);
    } else {
        assert(s.skip(0) =~= s);
        assert(s.drop_first().skip(k - 1) =~= s.skip(k));
        assert forall|i: int| 0 <= i < k - 1 implies !is_prefix(pat, s.drop_first().skip(i)) by {
            assert(s.drop_first().skip(i) =~= s.skip(i + 1));
        }
        lemma_find_skip(s.drop_first(), pat, k - 1);
    }
}

/// The text before the first `pat` and the text behind it, where there is
/// one.
pub fn split_once_str<'a>(s: &'a str, pat: &str) -> (r: (&'a str, Option<&'a str>))
    requires
        pat@.len() > 0,
    ensures
        r.0@ == s@.take(find(s@, pat@)),
        r.1 is Some <==> find(s@, pat@) < s@.len(),
        r.1 matches Some(rest) ==> rest@ == s@.skip(find(s@, pat@) + pat@.len()),
{
    let n = s.unicode_len();
    let m = pat.unicode_len();
    let mut k: usize = 0;
    while k < n
        invariant
            k <= n,
            n == s@.len(),
            m == pat@.len(),
            m > 0,
            forall|i: int| 0 <= i < k ==> !is_prefix(pat@, s@.skip(i)),
        decreases n - k,
    {
        let tail = s.substring_char(k, n);
        proof {
            assert(s@.subrange(k as int, n as int) =~= s@.skip(k as int));
        }
        match strip_prefix(tail, pat) {
            Some(rest) => {
                proof {
                    lemma_find_skip(s@, pat@, k as int);
                    assert(s@.subrange(0, k as int) =~= s@.take(k as int));
                    assert(s@.skip(k as int).skip(m as int) =~= s@.skip(k + m));
                }
                return (s.substring_char(0, k), Some(rest));
            },
            None => {},
        }
        k += 1;
    }
    proof {
        lemma_find_skip(s@, pat@, n as int);
        assert(s@.skip(n as int) =~= Seq::<char>::empty());
        assert(!is_prefix(pat@, Seq::<char>::empty()));
        assert(s@.subrange(0, n as int) =~= s@.take(n as int));
    }
    (s.substring_char(0, n), None)
}

/// The place behind the last `c` in `s`; the start of `s` where it holds
/// none.
pub open spec fn after_last(s: Seq<char>, c: char) -> int
    decreases s.len(),
{
    if s.len() == 0 {
        0
    } else if s.last() == c {
        s.len() as int
    } else {
        after_last(s.drop_last(), c)
    }
}

/// Where the characters of a text from `k` on are not `c`, the place behind
/// its last `c` is that of what stands before them.
proof fn lemma_after_last_take(s: Seq<char>, c: char, k: int)
    requires
        0 <= k <= s.len(),
        forall|i: int| k <= i < s.len() ==> s[i] != c,
    ensures
        after_last(s, c) == after_last(s.take(k), c),
    decreases s.len() - k,
{
    if k == s.len() {
        assert(s.take(k) =~= s);
    } else {
        assert(s.drop_last().take(k) =~= s.take(k));
        lemma_after_last_take(s.drop_last(), c, k);
    }
}

/// What follows the last `c` in the text; the whole text where it holds
/// none.
pub fn rsplit_last<'a>(s: &'a str, c: char) -> (r: &'a str)
    ensures
        r@ == s@.skip(after_last(s@, c)),
{
    let n = s.unicode_len();
    let mut k: usize = n;
    while k > 0 && s.get_char(k - 1) != c
        invariant
            k <= n,
            n == s@.len(),
            forall|i: int| k <= i < n ==> s@[i] != c,
        decreases k,
    {
        k -= 1;
    }
    proof {
        lemma_after_last_take(s@, c, k as int);
        if k > 0 {
            assert(s@.take(k as int).last() == c);
        }
        assert(after_last(s@.take(k as int), c) == k);
        assert(s@.subrange(k as int, n as int) =~= s@.skip(k as int));
    }
    s.substring_char(k, n)
}

/// The length of the first line of `bytes` with its line feed, and its
/// length without the line feed and the carriage return before that.
pub open spec fn first_line(bytes: Seq<u8>) -> (int, int)
    decreases bytes.len(),
{
    if bytes.len() == 0 {
        (0, 0)
    } else if bytes[0] == 10 {
        (1, 0)
    } else if bytes[0] == 13 && bytes.len() > 1 && bytes[1] == 10 {
        (2, 0)
    } else {
        let rest = first_line(bytes.drop_first());
        (rest.0 + 1, rest.1 + 1)
    }
}

/// The lines of `bytes`, each without its line feed and without the
/// carriage return before that. A text that ends with a line feed has no
/// line behind it.
pub open spec fn lines_of(bytes: Seq<u8>) -> Seq<Seq<u8>>
    decreases bytes.len(),
{
    if bytes.len() == 0 {
        Seq::empty()
    } else {
        let (whole, text) = first_line(bytes);
        if 0 < whole <= bytes.len() && 0 <= text <= whole {
            seq![bytes.take(text)] + lines_of(bytes.skip(whole))
        } else {
            Seq::empty()
        }
    }
}

/// A first line is not longer than the text, and not empty unless the text
/// is; where text follows it, it ends with a line feed.
pub proof fn lemma_first_line(bytes: Seq<u8>)
    ensures
        0 <= first_line(bytes).1 <= first_line(bytes).0 <= bytes.len(),
        bytes.len() > 0 ==> first_line(bytes).0 > 0,
        first_line(bytes).1 < first_line(bytes).0 ==> bytes[first_line(bytes).0 - 1] == 10,
        first_line(bytes).1 < first_line(bytes).0 ==> bytes[first_line(bytes).1] == 10
            || bytes[first_line(bytes).1] == 13,
        first_line(bytes).0 < bytes.len() ==> first_line(bytes).1 < first_line(bytes).0,
    decreases bytes.len(),
{
    if bytes.len() > 0 && bytes[0] != 10 && !(bytes[0] == 13 && bytes.len() > 1 && bytes[1]
        == 10) {
        lemma_first_line(bytes.drop_first());
    }
}

/// The lines of a text, each without its line feed and without the carriage
/// return before that.
pub fn lines<'a>(contents: &'a str) -> (found: Vec<&'a str>)
    ensures
        found@.len() == lines_of(contents.spec_bytes()).len(),
        forall|i: int|
            0 <= i < found@.len() ==> (#[trigger] found@[i]).spec_bytes() == lines_of(
                contents.spec_bytes(),
            )[i],
{
    let mut found: Vec<&'a str> = Vec::new();
    let mut rest = contents;
    let ghost all = contents.spec_bytes();
    let ghost mut done: Seq<Seq<u8>> = Seq::empty();
    loop
        invariant
            all == contents.spec_bytes(),
            done.len() == found@.len(),
            forall|i: int| 0 <= i < found@.len() ==> (#[trigger] found@[i]).spec_bytes() == done[i],
            lines_of(all) == done + lines_of(rest.spec_bytes()),
        decreases rest.spec_bytes().len(),
    {
        let bytes = rest.as_bytes();
        let len = bytes.len();
        let ghost here = rest.spec_bytes();
        if len == 0 {
            proof {
                assert(done + lines_of(here) =~= done);
            }
            return found;
        }
        let mut end: usize = 0;
        while end < len && bytes[end] != 10
            invariant
                bytes@ == here,
                len == here.len(),
                end <= len,
                forall|i: int| 0 <= i < end ==> here[i] != 10,
            decreases len - end,
        {
            end += 1;
        }
        // `end` is the place of the line feed, or the end of the text
        let text = if end < len && end > 0 && bytes[end - 1] == 13 {
            end - 1
        } else {
            end
        };
        let whole = if end < len {
            end + 1
        } else {
            end
        };
        proof {
            lemma_first_line_found(here, end as int);
            encode_utf8_valid_utf8(rest@);
            if whole < len {
                lemma_boundary_after_ascii(here, whole as int);
            } else {
                is_char_boundary_start_end_of_seq(here);
            }
            if text < len {
                is_char_boundary_iff_not_is_continuation_byte(here, text as int);
            } else {
                is_char_boundary_start_end_of_seq(here);
            }
        }
        let (line, _) = rest.split_at(text);
        let (_, tail) = rest.split_at(whole);
        proof {
            assert(line.spec_bytes() =~= here.take(text as int));
            assert(tail.spec_bytes() =~= here.skip(whole as int));
            done = done.push(here.take(text as int));
            assert(lines_of(here) =~= seq![here.take(text as int)] + lines_of(
                here.skip(whole as int),
            ));
        }
        found.push(line);
        rest = tail;
    }
}

/// Where the first line feed of a text stands, its first line ends.
proof fn lemma_first_line_found(bytes: Seq<u8>, end: int)
    requires
        0 <= end <= bytes.len(),
        forall|i: int| 0 <= i < end ==> bytes[i] != 10,
        end < bytes.len() ==> bytes[end] == 10,
    ensures
        first_line(bytes).0 == if end < bytes.len() {
            end + 1
        } else {
            end
        },
        first_line(bytes).1 == if end < bytes.len() && end > 0 && bytes[end - 1] == 13 {
            end - 1
        } else {
            end
        },
    decreases end,
{
    if bytes.len() == 0 {
    } else if end == 0 {
    } else if bytes[0] == 13 && bytes.len() > 1 && bytes[1] == 10 {
        assert(end == 1);
    } else {
        let rest = bytes.drop_first();
        assert forall|i: int| 0 <= i < end - 1 implies rest[i] != 10 by {
            assert(rest[i] == bytes[i + 1]);
        }
        lemma_first_line_found(rest, end - 1);
        if end - 1 > 0 {
            assert(rest[end - 2] == bytes[end - 1]);
        }
    }
}

/// A text has no more lines than bytes, and none of its lines is longer
/// than the text.
pub proof fn lemma_lines_bounds(bytes: Seq<u8>)
    ensures
        lines_of(bytes).len() <= bytes.len(),
        forall|i: int| 0 <= i < lines_of(bytes).len() ==> (#[trigger] lines_of(bytes)[i]).len()
            <= bytes.len(),
    decreases bytes.len(),
{
    if bytes.len() > 0 {
        lemma_first_line(bytes);
        let (whole, text) = first_line(bytes);
        lemma_lines_bounds(bytes.skip(whole));
        assert forall|i: int| 0 <= i < lines_of(bytes).len() implies (#[trigger] lines_of(
            bytes,
        )[i]).len() <= bytes.len() by {
            if i > 0 {
                assert(lines_of(bytes)[i] == lines_of(bytes.skip(whole))[i - 1]);
            }
        }
    }
}

} // verus!
