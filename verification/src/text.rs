//! Whitespace trimming of secrets read from a terminal or a pipe.

use vstd::prelude::*;
use vstd::std_specs::iter::IteratorSpec;
use vstd::string::StrSliceExecFns;
use vstd::string::StringSliceAdditionalSpecFns;

verus! {

/// The characters with the Unicode property `White_Space`.
pub open spec fn is_whitespace(c: char) -> bool {
    let n = c as u32;
    ||| 0x09 <= n <= 0x0D
    ||| n == 0x20
    ||| n == 0x85
    ||| n == 0xA0
    ||| n == 0x1680
    ||| 0x2000 <= n <= 0x200A
    ||| n == 0x2028
    ||| n == 0x2029
    ||| n == 0x202F
    ||| n == 0x205F
    ||| n == 0x3000
}

/// `s` without its leading whitespace.
pub open spec fn trim_start(s: Seq<char>) -> Seq<char>
    decreases s.len(),
{
    if s.len() > 0 && is_whitespace(s.first()) {
        trim_start(s.drop_first())
    } else {
        s
    }
}

/// `s` without its trailing whitespace.
pub open spec fn trim_end(s: Seq<char>) -> Seq<char>
    decreases s.len(),
{
    if s.len() > 0 && is_whitespace(s.last()) {
        trim_end(s.drop_last())
    } else {
        s
    }
}

/// `s` without leading and trailing whitespace.
pub open spec fn trimmed(s: Seq<char>) -> Seq<char> {
    trim_end(trim_start(s))
}

/// Every character of `s` in `from..to` is whitespace.
pub open spec fn all_whitespace(s: Seq<char>, from: int, to: int) -> bool {
    forall|k: int| from <= k < to ==> is_whitespace(#[trigger] s[k])
}

/// Leading whitespace up to the first other character is what `trim_start`
/// removes.
pub proof fn lemma_trim_start(s: Seq<char>, start: int)
    requires
        0 <= start <= s.len(),
        all_whitespace(s, 0, start),
        start < s.len() ==> !is_whitespace(s[start]),
    ensures
        trim_start(s) == s.skip(start),
    decreases start,
{
    if start == 0 {
        assert(s.skip(0) =~= s);
    } else {
        let rest = s.drop_first();
        assert(is_whitespace(s[0]));
        assert forall|k: int| 0 <= k < start - 1 implies is_whitespace(#[trigger] rest[k]) by {
            assert(rest[k] == s[k + 1]);
        }
        lemma_trim_start(rest, start - 1);
        assert(rest.skip(start - 1) =~= s.skip(start));
    }
}

/// Trailing whitespace after the last other character is what `trim_end`
/// removes.
pub proof fn lemma_trim_end(s: Seq<char>, end: int)
    requires
        0 <= end <= s.len(),
        all_whitespace(s, end, s.len() as int),
        end > 0 ==> !is_whitespace(s[end - 1]),
    ensures
        trim_end(s) == s.take(end),
    decreases s.len() - end,
{
    if end == s.len() {
        assert(s.take(end) =~= s);
    } else {
        let rest = s.drop_last();
        assert(is_whitespace(s[s.len() - 1]));
        assert forall|k: int| end <= k < rest.len() implies is_whitespace(#[trigger] rest[k]) by {
            assert(rest[k] == s[k]);
        }
        lemma_trim_end(rest, end);
        assert(rest.take(end) =~= s.take(end));
    }
}

/// Trimming leaves nothing of a string that is all whitespace, and of
/// nothing else.
pub proof fn lemma_trimmed_empty(s: Seq<char>)
    ensures
        trimmed(s).len() == 0 <==> all_whitespace(s, 0, s.len() as int),
{
    if all_whitespace(s, 0, s.len() as int) {
        lemma_trim_start(s, s.len() as int);
        assert(s.skip(s.len() as int) =~= Seq::<char>::empty());
    } else {
        let start = first_other(s, 0);
        lemma_first_other(s, 0);
        let end = last_other(s, s.len() as int);
        lemma_last_other(s, s.len() as int);
        lemma_trimmed_bounds(s, start, end);
    }
}

/// Index of the first character at or after `from` that is no whitespace,
/// or the length of `s`.
spec fn first_other(s: Seq<char>, from: int) -> int
    decreases s.len() - from,
{
    if 0 <= from < s.len() && is_whitespace(s[from]) {
        first_other(s, from + 1)
    } else {
        from
    }
}

/// One past the index of the last character before `to` that is no
/// whitespace, or zero.
spec fn last_other(s: Seq<char>, to: int) -> int
    decreases to,
{
    if 0 < to <= s.len() && is_whitespace(s[to - 1]) {
        last_other(s, to - 1)
    } else {
        to
    }
}

/// `first_other` stays within `s`, passes only whitespace, and stops at a
/// character that is none.
proof fn lemma_first_other(s: Seq<char>, from: int)
    requires
        0 <= from <= s.len(),
    ensures
        from <= first_other(s, from) <= s.len(),
        all_whitespace(s, from, first_other(s, from)),
        first_other(s, from) < s.len() ==> !is_whitespace(s[first_other(s, from)]),
    decreases s.len() - from,
{
    if from < s.len() && is_whitespace(s[from]) {
        lemma_first_other(s, from + 1);
    }
}

/// `last_other` stays within `s`, passes only whitespace, and stops behind
/// a character that is none.
proof fn lemma_last_other(s: Seq<char>, to: int)
    requires
        0 <= to <= s.len(),
    ensures
        0 <= last_other(s, to) <= to,
        all_whitespace(s, last_other(s, to), to),
        last_other(s, to) > 0 ==> !is_whitespace(s[last_other(s, to) - 1]),
    decreases to,
{
    if 0 < to && is_whitespace(s[to - 1]) {
        lemma_last_other(s, to - 1);
    }
}

/// The trimmed string is the part between the first and the last character
/// that is no whitespace.
pub proof fn lemma_trimmed_bounds(s: Seq<char>, start: int, end: int)
    requires
        0 <= start < end <= s.len(),
        all_whitespace(s, 0, start),
        !is_whitespace(s[start]),
        all_whitespace(s, end, s.len() as int),
        !is_whitespace(s[end - 1]),
    ensures
        trimmed(s) == s.subrange(start, end),
{
    lemma_trim_start(s, start);
    let tail = s.skip(start);
    assert forall|k: int| end - start <= k < tail.len() implies is_whitespace(
        #[trigger] tail[k],
    ) by {
        assert(tail[k] == s[k + start]);
    }
    assert(tail[end - start - 1] == s[end - 1]);
    lemma_trim_end(tail, end - start);
    assert(tail.take(end - start) =~= s.subrange(start, end));
}

/// Tells whether `c` has the Unicode property `White_Space`.
pub fn char_is_whitespace(c: char) -> (r: bool)
    ensures
        r == is_whitespace(c),
{
    let n: u32 = c as u32;
    (0x09 <= n && n <= 0x0D) || n == 0x20 || n == 0x85 || n == 0xA0 || n == 0x1680 || (0x2000 <= n
        && n <= 0x200A) || n == 0x2028 || n == 0x2029 || n == 0x202F || n == 0x205F || n == 0x3000
}

/// Tells whether two string slices hold the same characters.
pub fn str_eq(a: &str, b: &str) -> (r: bool)
    ensures
        r == (a@ == b@),
{
    let x = a.as_bytes();
    let y = b.as_bytes();
    proof {
        vstd::utf8::encode_utf8_decode_utf8(a@);
        vstd::utf8::encode_utf8_decode_utf8(b@);
    }
    if x.len() != y.len() {
        return false;
    }
    let mut i: usize = 0;
    while i < x.len()
        invariant
            i <= x.len() == y.len(),
            x@ == a.spec_bytes(),
            y@ == b.spec_bytes(),
            forall|k: int| 0 <= k < i ==> x@[k] == y@[k],
        decreases x.len() - i,
    {
        if x[i] != y[i] {
            return false;
        }
        i += 1;
    }
    assert(x@ =~= y@);
    true
}

/// Removes leading and trailing whitespace from `s`.
pub fn trim(s: &str) -> (r: &str)
    ensures
        r@ == trimmed(s@),
{
    broadcast use vstd::string::group_string_axioms;

    let total: usize = s.unicode_len();
    let mut chars = s.chars();
    let mut seen: usize = 0;
    let mut start: usize = 0;
    let mut end: usize = 0;
    let mut found = false;
    loop
        invariant
            chars.remaining() == s@.skip(seen as int),
            0 <= seen <= s@.len() == total,
            found ==> 0 <= start < end <= seen && !is_whitespace(s@[start as int])
                && !is_whitespace(s@[end - 1]) && all_whitespace(s@, 0, start as int)
                && all_whitespace(s@, end as int, seen as int),
            !found ==> all_whitespace(s@, 0, seen as int),
        ensures
            seen == s@.len(),
        decreases s@.len() - seen,
    {
        match chars.next() {
            Some(c) => {
                assert(c == s@[seen as int]);
                if !char_is_whitespace(c) {
                    if !found {
                        start = seen;
                        found = true;
                    }
                    end = seen + 1;
                }
                seen = seen + 1;
            },
            None => {
                break ;
            },
        }
    }
    if found {
        proof {
            lemma_trimmed_bounds(s@, start as int, end as int);
        }
        s.substring_char(start, end)
    } else {
        proof {
            lemma_trimmed_empty(s@);
            assert(s@.subrange(0, 0) =~= Seq::<char>::empty());
        }
        s.substring_char(0, 0)
    }
}

} // verus!
