//! The mathematical model of the text transformations: whitespace trimming,
//! line splitting and joining, and UTF-8 byte lengths, all over `Seq<char>`.

use vstd::prelude::*;
use vstd::string::StrSliceExecFns;
use vstd::utf8::char_is_scalar;
use vstd::utf8::encode_scalar;
use vstd::utf8::encode_utf8;

verus! {

/// The characters of the Unicode `White_Space` property, the set recognized
/// by `char::is_whitespace` and hence by `str::trim`.
pub open spec fn is_ws_char(c: char) -> bool {
    ||| c == ' '
    ||| c == '\t'
    ||| c == '\n'
    ||| c == '\u{b}'
    ||| c == '\u{c}'
    ||| c == '\r'
    ||| c == '\u{85}'
    ||| c == '\u{a0}'
    ||| c == '\u{1680}'
    ||| (0x2000 <= c as u32 && c as u32 <= 0x200a)
    ||| c == '\u{2028}'
    ||| c == '\u{2029}'
    ||| c == '\u{202f}'
    ||| c == '\u{205f}'
    ||| c == '\u{3000}'
}

/// Decides [`is_ws_char`].
pub fn ws_char(c: char) -> (b: bool)
    ensures
        b == is_ws_char(c),
{
    c == ' ' || c == '\t' || c == '\n' || c == '\u{b}' || c == '\u{c}' || c == '\r'
        || c == '\u{85}' || c == '\u{a0}' || c == '\u{1680}'
        || (0x2000 <= c as u32 && c as u32 <= 0x200a) || c == '\u{2028}' || c == '\u{2029}'
        || c == '\u{202f}' || c == '\u{205f}' || c == '\u{3000}'
}

/// The index of the first occurrence of `c` in `s`, or `s.len()` when `c`
/// does not occur.
pub open spec fn first_idx(s: Seq<char>, c: char) -> int
    decreases s.len(),
{
    if s.len() == 0 {
        0
    } else if s[0] == c {
        0
    } else {
        1 + first_idx(s.drop_first(), c)
    }
}

pub proof fn lemma_first_idx(s: Seq<char>, c: char)
    ensures
        0 <= first_idx(s, c) <= s.len(),
        forall|k: int| 0 <= k < first_idx(s, c) ==> s[k] != c,
        first_idx(s, c) < s.len() ==> s[first_idx(s, c)] == c,
        s.contains(c) <==> first_idx(s, c) < s.len(),
    decreases s.len(),
{
    if s.len() == 0 {
        assert(!s.contains(c));
    } else if s[0] == c {
        assert(s.contains(c));
    } else {
        lemma_first_idx(s.drop_first(), c);
        let i = first_idx(s, c);
        assert(forall|k: int| 1 <= k < i ==> s[k] == s.drop_first()[k - 1]);
        if s.drop_first().contains(c) {
            let j = choose|j: int| 0 <= j < s.drop_first().len() && s.drop_first()[j] == c;
            assert(s[j + 1] == c);
            assert(s.contains(c));
        }
        if s.contains(c) {
            let j = choose|j: int| 0 <= j < s.len() && s[j] == c;
            assert(j != 0);
            assert(s.drop_first()[j - 1] == c);
            assert(s.drop_first().contains(c));
        }
    }
}

/// The number of whitespace characters at the start of `s`.
pub open spec fn leading_ws(s: Seq<char>) -> int
    decreases s.len(),
{
    if s.len() == 0 || !is_ws_char(s[0]) {
        0
    } else {
        1 + leading_ws(s.drop_first())
    }
}

/// The number of whitespace characters at the end of `s`.
pub open spec fn trailing_ws(s: Seq<char>) -> int
    decreases s.len(),
{
    if s.len() == 0 || !is_ws_char(s[s.len() - 1]) {
        0
    } else {
        1 + trailing_ws(s.drop_last())
    }
}

pub proof fn lemma_leading_ws(s: Seq<char>)
    ensures
        0 <= leading_ws(s) <= s.len(),
        forall|k: int| 0 <= k < leading_ws(s) ==> is_ws_char(s[k]),
        leading_ws(s) < s.len() ==> !is_ws_char(s[leading_ws(s)]),
    decreases s.len(),
{
    if s.len() != 0 && is_ws_char(s[0]) {
        lemma_leading_ws(s.drop_first());
        assert(forall|k: int| 1 <= k < leading_ws(s) ==> s[k] == s.drop_first()[k - 1]);
    }
}

pub proof fn lemma_trailing_ws(s: Seq<char>)
    ensures
        0 <= trailing_ws(s) <= s.len(),
        forall|k: int| s.len() - trailing_ws(s) <= k < s.len() ==> is_ws_char(s[k]),
        trailing_ws(s) < s.len() ==> !is_ws_char(s[s.len() - trailing_ws(s) - 1]),
    decreases s.len(),
{
    if s.len() != 0 && is_ws_char(s[s.len() - 1]) {
        lemma_trailing_ws(s.drop_last());
        assert(forall|k: int| 0 <= k < s.len() - 1 ==> s[k] == s.drop_last()[k]);
    }
}

/// The unique characterization of [`leading_ws`]: `n` leading whitespace
/// characters followed by the end or a non-whitespace character.
pub proof fn lemma_leading_ws_from(s: Seq<char>, n: int)
    requires
        0 <= n <= s.len(),
        forall|k: int| 0 <= k < n ==> is_ws_char(s[k]),
        n < s.len() ==> !is_ws_char(s[n]),
    ensures
        leading_ws(s) == n,
    decreases s.len(),
{
    if s.len() != 0 && is_ws_char(s[0]) {
        assert(forall|k: int| 1 <= k < s.len() ==> s.drop_first()[k - 1] == s[k]);
        lemma_leading_ws_from(s.drop_first(), n - 1);
    }
}

/// The unique characterization of [`trailing_ws`].
pub proof fn lemma_trailing_ws_from(s: Seq<char>, n: int)
    requires
        0 <= n <= s.len(),
        forall|k: int| s.len() - n <= k < s.len() ==> is_ws_char(s[k]),
        n < s.len() ==> !is_ws_char(s[s.len() - n - 1]),
    ensures
        trailing_ws(s) == n,
    decreases s.len(),
{
    if s.len() != 0 && is_ws_char(s[s.len() - 1]) {
        assert(forall|k: int| 0 <= k < s.len() - 1 ==> s.drop_last()[k] == s[k]);
        lemma_trailing_ws_from(s.drop_last(), n - 1);
    }
}

/// `s` with leading and trailing whitespace removed, as `str::trim` does.
pub open spec fn trim(s: Seq<char>) -> Seq<char> {
    if leading_ws(s) == s.len() {
        Seq::empty()
    } else {
        s.subrange(leading_ws(s), s.len() - trailing_ws(s))
    }
}

/// When `s` holds any non-whitespace character, its leading and trailing
/// whitespace runs do not overlap.
pub proof fn lemma_trim_bounds(s: Seq<char>)
    requires
        leading_ws(s) < s.len(),
    ensures
        leading_ws(s) < s.len() - trailing_ws(s),
        trim(s) == s.subrange(leading_ws(s), s.len() - trailing_ws(s)),
        trim(s).len() > 0,
        !is_ws_char(trim(s)[0]),
        !is_ws_char(trim(s)[trim(s).len() - 1]),
{
    lemma_leading_ws(s);
    lemma_trailing_ws(s);
    let a = leading_ws(s);
    if s.len() - trailing_ws(s) <= a {
        assert(is_ws_char(s[a]));
    }
    assert(trim(s)[0] == s[a]);
    assert(trim(s)[trim(s).len() - 1] == s[s.len() - trailing_ws(s) - 1]);
}

/// The length in bytes of the UTF-8 encoding of a single character.
pub open spec fn char_len(c: char) -> nat {
    encode_scalar(c as u32).len()
}

/// The length in bytes of the UTF-8 encoding of `s`; this is `str::len` of
/// the corresponding string slice.
pub open spec fn byte_len(s: Seq<char>) -> nat {
    encode_utf8(s).len()
}

pub proof fn lemma_char_len_bounds(c: char)
    ensures
        1 <= char_len(c) <= 4,
{
    char_is_scalar(c);
}

proof fn lemma_encode_utf8_concat(a: Seq<char>, b: Seq<char>)
    ensures
        encode_utf8(a + b) =~= encode_utf8(a) + encode_utf8(b),
    decreases a.len(),
{
    if a.len() == 0 {
        assert(a + b =~= b);
    } else {
        assert((a + b).drop_first() =~= a.drop_first() + b);
        lemma_encode_utf8_concat(a.drop_first(), b);
    }
}

/// Byte length is additive across concatenation.
pub proof fn lemma_byte_len_concat(a: Seq<char>, b: Seq<char>)
    ensures
        byte_len(a + b) == byte_len(a) + byte_len(b),
{
    lemma_encode_utf8_concat(a, b);
}

/// Extending a prefix by one character adds that character's byte length.
pub proof fn lemma_byte_len_take_succ(s: Seq<char>, i: int)
    requires
        0 <= i < s.len(),
    ensures
        byte_len(s.take(i + 1)) == byte_len(s.take(i)) + char_len(s[i]),
{
    assert(s.take(i + 1) =~= s.take(i) + seq![s[i]]);
    lemma_byte_len_concat(s.take(i), seq![s[i]]);
    lemma_byte_len_singleton(s[i]);
}

/// A prefix is no longer, in bytes, than the whole.
pub proof fn lemma_byte_len_prefix(s: Seq<char>, i: int)
    requires
        0 <= i <= s.len(),
    ensures
        byte_len(s.take(i)) <= byte_len(s),
        byte_len(s.take(i)) + byte_len(s.skip(i)) == byte_len(s),
{
    assert(s =~= s.take(i) + s.skip(i));
    lemma_byte_len_concat(s.take(i), s.skip(i));
}

/// A single character occupies its own encoding length.
pub proof fn lemma_byte_len_singleton(c: char)
    ensures
        byte_len(seq![c]) == char_len(c),
{
    let single = seq![c];
    assert(encode_utf8(single) == encode_scalar(single[0] as u32) + encode_utf8(
        single.drop_first(),
    ));
    assert(single.drop_first() =~= Seq::<char>::empty());
    assert(encode_utf8(single.drop_first()) =~= Seq::<u8>::empty());
    assert(encode_utf8(single) =~= encode_scalar(c as u32));
}

/// The unique characterization of [`first_idx`]: no occurrence before `n`,
/// and an occurrence (or the end) at `n`.
pub proof fn lemma_first_idx_from(s: Seq<char>, c: char, n: int)
    requires
        0 <= n <= s.len(),
        forall|k: int| 0 <= k < n ==> s[k] != c,
        n < s.len() ==> s[n] == c,
    ensures
        first_idx(s, c) == n,
    decreases s.len(),
{
    if s.len() != 0 && s[0] != c {
        assert(forall|k: int| 1 <= k < s.len() ==> s.drop_first()[k - 1] == s[k]);
        lemma_first_idx_from(s.drop_first(), c, n - 1);
    }
}

/// The lines of `s`: the segments between consecutive `'\n'` characters.
/// A string without `'\n'` is one line (the empty string is one empty line),
/// and every `'\n'` ends a line, so a trailing `'\n'` yields a final empty
/// line.
pub open spec fn split_lines(s: Seq<char>) -> Seq<Seq<char>>
    decreases s.len(),
    via split_lines_decreases
{
    let i = first_idx(s, '\n');
    if i == s.len() {
        seq![s]
    } else {
        seq![s.take(i)] + split_lines(s.skip(i + 1))
    }
}

#[via_fn]
proof fn split_lines_decreases(s: Seq<char>) {
    lemma_first_idx(s, '\n');
}

pub proof fn lemma_split_lines(s: Seq<char>)
    ensures
        split_lines(s).len() >= 1,
        forall|i: int|
            0 <= i < split_lines(s).len() ==> !(#[trigger] split_lines(s)[i]).contains('\n'),
        !s.contains('\n') ==> split_lines(s) == seq![s],
    decreases s.len(),
{
    lemma_first_idx(s, '\n');
    let i = first_idx(s, '\n');
    if i == s.len() {
        if s.contains('\n') {
            let j = choose|j: int| 0 <= j < s.len() && s[j] == '\n';
        }
        assert(split_lines(s) == seq![s]);
        assert(!split_lines(s)[0].contains('\n'));
    } else {
        lemma_split_lines(s.skip(i + 1));
        let head = s.take(i);
        if head.contains('\n') {
            let j = choose|j: int| 0 <= j < head.len() && head[j] == '\n';
            assert(s[j] == '\n');
        }
        assert(forall|k: int|
            0 <= k < split_lines(s.skip(i + 1)).len() ==> split_lines(s)[k + 1] == #[trigger] split_lines(
                s.skip(i + 1),
            )[k]);
    }
}

/// The lines joined back together with a single `'\n'` between consecutive
/// lines.
pub open spec fn join_lines(ls: Seq<Seq<char>>) -> Seq<char>
    decreases ls.len(),
{
    if ls.len() == 0 {
        Seq::empty()
    } else if ls.len() == 1 {
        ls[0]
    } else {
        ls[0] + seq!['\n'] + join_lines(ls.drop_first())
    }
}

/// Joining non-empty lines yields a non-empty result.
pub proof fn lemma_join_lines_nonempty(ls: Seq<Seq<char>>)
    requires
        ls.len() > 0,
        forall|i: int| 0 <= i < ls.len() ==> (#[trigger] ls[i]).len() > 0,
    ensures
        join_lines(ls).len() > 0,
{
    if ls.len() > 1 {
        assert(join_lines(ls).len() >= ls[0].len() + 1);
    }
}

/// Splitting a join recovers the lines, provided each line is non-empty and
/// free of `'\n'`.
pub proof fn lemma_split_join(ls: Seq<Seq<char>>)
    requires
        ls.len() > 0,
        forall|i: int|
            0 <= i < ls.len() ==> (#[trigger] ls[i]).len() > 0 && !ls[i].contains('\n'),
    ensures
        split_lines(join_lines(ls)) == ls,
    decreases ls.len(),
{
    let j = join_lines(ls);
    if ls.len() == 1 {
        if j.contains('\n') {
            let k = choose|k: int| 0 <= k < j.len() && j[k] == '\n';
        }
        lemma_first_idx_from(j, '\n', j.len() as int);
        assert(split_lines(j) =~= seq![ls[0]]);
        assert(split_lines(j) =~~= ls);
    } else {
        let head = ls[0];
        let rest = join_lines(ls.drop_first());
        let hl = head.len() as int;
        assert(j == head + seq!['\n'] + rest);
        assert(forall|k: int| 0 <= k < hl ==> j[k] == head[k]);
        if exists|k: int| 0 <= k < hl && j[k] == '\n' {
            let k = choose|k: int| 0 <= k < hl && j[k] == '\n';
            assert(head.contains('\n'));
        }
        assert(j[hl] == '\n');
        lemma_first_idx_from(j, '\n', hl);
        assert(j.take(hl) =~= head);
        assert(j.skip(hl + 1) =~= rest);
        assert(forall|i: int|
            0 <= i < ls.drop_first().len() ==> (#[trigger] ls.drop_first()[i]) == ls[i + 1]);
        lemma_split_join(ls.drop_first());
        assert(split_lines(j) == seq![head] + ls.drop_first());
        assert(split_lines(j) =~~= ls);
    }
}

/// Computes [`char_len`] of a character.
pub fn utf8_char_len(c: char) -> (n: usize)
    ensures
        n == char_len(c),
{
    proof {
        char_is_scalar(c);
    }
    let v = c as u32;
    if v <= 0x7F {
        1
    } else if v <= 0x7FF {
        2
    } else if v <= 0xFFFF {
        3
    } else {
        4
    }
}

/// The character index of the first occurrence of `c` in `s` at or after
/// `from`, or the length of `s` when there is none.
pub fn find_char(s: &str, from: usize, c: char) -> (i: usize)
    requires
        from <= s@.len(),
    ensures
        from <= i <= s@.len(),
        forall|k: int| from <= k < i ==> s@[k] != c,
        i < s@.len() ==> s@[i as int] == c,
{
    let n = s.unicode_len();
    let mut i = from;
    while i < n
        invariant
            from <= i <= n,
            n == s@.len(),
            forall|k: int| from <= k < i ==> s@[k] != c,
        decreases n - i,
    {
        if s.get_char(i) == c {
            return i;
        }
        i = i + 1;
    }
    i
}

/// Whether `c` occurs anywhere in `s`.
pub fn contains_char(s: &str, c: char) -> (b: bool)
    ensures
        b == s@.contains(c),
{
    let n = s.unicode_len();
    let i = find_char(s, 0, c);
    proof {
        if i < s@.len() {
            assert(s@.contains(c));
        } else if s@.contains(c) {
            let j = choose|j: int| 0 <= j < s@.len() && s@[j] == c;
        }
    }
    i < n
}

/// The character index of the first non-whitespace character of `s` at or
/// after `from`, or the length of `s` when there is none.
pub fn scan_ws(s: &str, from: usize) -> (i: usize)
    requires
        from <= s@.len(),
    ensures
        from <= i <= s@.len(),
        forall|k: int| from <= k < i ==> is_ws_char(s@[k]),
        i < s@.len() ==> !is_ws_char(s@[i as int]),
{
    let n = s.unicode_len();
    let mut i = from;
    while i < n && ws_char(s.get_char(i))
        invariant
            from <= i <= n,
            n == s@.len(),
            forall|k: int| from <= k < i ==> is_ws_char(s@[k]),
        decreases n - i,
    {
        i = i + 1;
    }
    i
}

/// The character index just past the last non-whitespace character of `s`
/// before `upto`, but no less than `floor`; `floor` itself when the whole
/// range `[floor, upto)` is whitespace.
pub fn scan_ws_rev(s: &str, floor: usize, upto: usize) -> (j: usize)
    requires
        floor <= upto <= s@.len(),
    ensures
        floor <= j <= upto,
        forall|k: int| j <= k < upto ==> is_ws_char(s@[k]),
        floor < j ==> !is_ws_char(s@[j - 1]),
{
    let mut j = upto;
    while j > floor && ws_char(s.get_char(j - 1))
        invariant
            floor <= j <= upto <= s@.len(),
            forall|k: int| j <= k < upto ==> is_ws_char(s@[k]),
        decreases j,
    {
        j = j - 1;
    }
    j
}

/// `s` with leading and trailing whitespace removed: the slice whose view is
/// [`trim`] of the view of `s`.
pub fn trim_str<'a>(s: &'a str) -> (r: &'a str)
    ensures
        r@ == trim(s@),
{
    let n = s.unicode_len();
    let a = scan_ws(s, 0);
    if a == n {
        proof {
            lemma_leading_ws_from(s@, n as int);
        }
        let r = s.substring_char(0, 0);
        proof {
            assert(r@ =~= trim(s@));
        }
        r
    } else {
        let b = scan_ws_rev(s, a, n);
        proof {
            lemma_leading_ws_from(s@, a as int);
            assert(b > a) by {
                if b == a {
                    assert(is_ws_char(s@[a as int]));
                }
            }
            lemma_trailing_ws_from(s@, n - b);
            lemma_trim_bounds(s@);
        }
        s.substring_char(a, b)
    }
}

} // verus!
