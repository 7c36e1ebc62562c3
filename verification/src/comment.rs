//! The free-text comment part of a JSDoc tag: normalization of the raw,
//! `*`-prefixed block text, and narrowing of its span to the first visible
//! line.

use crate::span::Span;
use crate::text::byte_len;
use crate::text::find_char;
use crate::text::first_idx;
use crate::text::is_ws_char;
use crate::text::join_lines;
use crate::text::leading_ws;
use crate::text::lemma_byte_len_concat;
use crate::text::lemma_byte_len_prefix;
use crate::text::lemma_byte_len_singleton;
use crate::text::lemma_byte_len_take_succ;
use crate::text::lemma_char_len_bounds;
use crate::text::lemma_first_idx_from;
use crate::text::lemma_join_lines_nonempty;
use crate::text::lemma_leading_ws_from;
use crate::text::lemma_split_join;
use crate::text::lemma_split_lines;
use crate::text::lemma_trailing_ws_from;
use crate::text::split_lines;
use crate::text::trailing_ws;
use crate::text::trim;
use crate::text::trim_str;
use crate::text::utf8_char_len;
use crate::text::ws_char;
use vstd::prelude::*;
use vstd::string::StrSliceExecFns;
use vstd::string::StringExecFns;

verus! {

/// One source line as it appears in the parsed comment: whitespace-trimmed,
/// with at most one leading `*` marker (and the whitespace around it)
/// removed.
pub open spec fn clean_line(l: Seq<char>) -> Seq<char> {
    let t = trim(l);
    if t.len() > 0 && t[0] == '*' {
        trim(t.drop_first())
    } else {
        t
    }
}

/// The cleaned lines that survive normalization: each line of `ls` is
/// cleaned by [`clean_line`], and the lines that come out empty are dropped.
pub open spec fn kept_lines_of(ls: Seq<Seq<char>>) -> Seq<Seq<char>>
    decreases ls.len(),
{
    if ls.len() == 0 {
        Seq::empty()
    } else {
        let rest = kept_lines_of(ls.drop_first());
        if clean_line(ls[0]).len() > 0 {
            seq![clean_line(ls[0])] + rest
        } else {
            rest
        }
    }
}

/// The surviving cleaned lines of the raw comment text `s`.
pub open spec fn kept_lines(s: Seq<char>) -> Seq<Seq<char>> {
    kept_lines_of(split_lines(s))
}

/// What parsing a comment part yields. A raw text without a line break is
/// returned whitespace-trimmed, untouched otherwise: a single physical line
/// never carries the block-comment `*` marker. A multi-line raw text is
/// split into lines; each line is trimmed, stripped of at most one leading
/// `*`, and trimmed again; lines left empty are dropped, and the survivors
/// are joined with single `'\n'` separators, in their original order.
pub open spec fn comment_parsed(s: Seq<char>) -> Seq<char> {
    if !s.contains('\n') {
        trim(s)
    } else {
        join_lines(kept_lines(s))
    }
}

/// The narrowed span covering only the first visible line of the raw
/// comment text, for single-line-renderable diagnostics. All-whitespace
/// text gets a zero-length span at the original start. Text without a line
/// break keeps its span, shrunk by the leading and trailing whitespace byte
/// counts. Multi-line text gets its start moved past the leading
/// whitespace, and its end placed at the first line break after it — or
/// back at the start when no line break follows the leading whitespace.
pub open spec fn trimmed_first_line_span(raw: Seq<char>, sp: Span) -> Span {
    if leading_ws(raw) == raw.len() {
        Span { start: sp.start, end: sp.start }
    } else if !raw.contains('\n') {
        Span {
            start: (sp.start + byte_len(raw.take(leading_ws(raw)))) as u32,
            end: (sp.end - byte_len(raw.skip(raw.len() - trailing_ws(raw)))) as u32,
        }
    } else {
        let rest = raw.skip(leading_ws(raw));
        let off = if rest.contains('\n') {
            first_idx(rest, '\n')
        } else {
            0
        };
        Span {
            start: (sp.start + byte_len(raw.take(leading_ws(raw)))) as u32,
            end: (sp.start + byte_len(raw.take(leading_ws(raw))) + byte_len(rest.take(off))) as u32,
        }
    }
}

/// The free-text comment or description of a JSDoc tag, such as the trailing
/// description in `@param {foo} bar Some description`: the raw substring of
/// the source (whitespace, line breaks and `*` markers included), plus its
/// span.
#[derive(Debug, Clone, Copy, PartialEq, Eq)]
pub struct JSDocCommentPart<'a> {
    /// The raw string content: freeform description text, unconstrained.
    pub raw: &'a str,
    /// The span in the source text corresponding to this part.
    pub span: Span,
}

impl<'a> View for JSDocCommentPart<'a> {
    type V = Seq<char>;

    open spec fn view(&self) -> Seq<char> {
        self.raw@
    }
}

impl<'a> JSDocCommentPart<'a> {
    /// The part's invariant: the span covers exactly the bytes of the raw
    /// substring.
    pub open spec fn wf(self) -> bool {
        &&& self.span.start <= self.span.end
        &&& self.span.end - self.span.start == byte_len(self@)
    }

    /// Wraps a raw comment substring, already isolated by the caller,
    /// together with its span. Comment text is unconstrained;
    /// [`Self::span_trimmed_first_line`] asks that the span match the text.
    pub fn new(part_content: &'a str, span: Span) -> (p: Self)
        ensures
            p@ == part_content@,
            p.span == span,
    {
        Self { raw: part_content, span }
    }

    /// The content of the comment part with surrounding whitespace, the
    /// per-line leading `*` markers and blank lines removed, as
    /// [`comment_parsed`] states.
    pub fn parsed(&self) -> (r: String)
        ensures
            r@ == comment_parsed(self@),
    {
        let n: usize = self.raw.unicode_len();
        let i: usize = find_char(self.raw, 0, '\n');
        if i == n {
            proof {
                if self@.contains('\n') {
                    let j = choose|j: int| 0 <= j < self@.len() && self@[j] == '\n';
                }
            }
            trim_str(self.raw).to_owned()
        } else {
            proof {
                assert(self@.contains('\n'));
            }
            join_cleaned(self.raw)
        }
    }

    /// A span covering only the first visible (non-whitespace-only) line of
    /// the raw content, as [`trimmed_first_line_span`] states. A diagnostic
    /// underline renders cleanly for a single-line span but not for a
    /// multi-line one; bounding the span to the first visible line keeps the
    /// indicator readable while still pointing into the correct source.
    pub fn span_trimmed_first_line(&self) -> (r: Span)
        requires
            self.wf(),
        ensures
            r == trimmed_first_line_span(self@, self.span),
    {
        let ghost s = self@;
        let n: usize = self.raw.unicode_len();
        // Count the leading whitespace, in characters (a) and bytes (abytes).
        let mut a: usize = 0;
        let mut abytes: u32 = 0;
        while a < n && ws_char(self.raw.get_char(a))
            invariant
                0 <= a <= n,
                n == s.len(),
                s == self@,
                self.wf(),
                forall|k: int| 0 <= k < a ==> is_ws_char(s[k]),
                abytes == byte_len(s.take(a as int)),
            decreases n - a,
        {
            proof {
                lemma_byte_len_take_succ(s, a as int);
                lemma_char_len_bounds(s[a as int]);
                lemma_byte_len_prefix(s, a + 1);
            }
            abytes = abytes + (utf8_char_len(self.raw.get_char(a)) as u32);
            a = a + 1;
        }
        proof {
            lemma_leading_ws_from(s, a as int);
        }
        if a == n {
            return Span::empty(self.span.start);
        }
        proof {
            lemma_byte_len_prefix(s, a as int);
        }
        let inl: usize = find_char(self.raw, 0, '\n');
        if inl == n {
            proof {
                if s.contains('\n') {
                    let j = choose|j: int| 0 <= j < s.len() && s[j] == '\n';
                }
            }
            // No line break: count the trailing whitespace as well.
            let mut b: usize = n;
            let mut tbytes: u32 = 0;
            while b > a && ws_char(self.raw.get_char(b - 1))
                invariant
                    a <= b <= n,
                    n == s.len(),
                    s == self@,
                    self.wf(),
                    forall|k: int| b <= k < n ==> is_ws_char(s[k]),
                    tbytes == byte_len(s.skip(b as int)),
                decreases b,
            {
                proof {
                    assert(s.skip(b - 1) =~= seq![s[b - 1]] + s.skip(b as int));
                    lemma_byte_len_concat(seq![s[b - 1]], s.skip(b as int));
                    lemma_byte_len_singleton(s[b - 1]);
                    lemma_char_len_bounds(s[b - 1]);
                    lemma_byte_len_prefix(s, b - 1);
                }
                tbytes = tbytes + (utf8_char_len(self.raw.get_char(b - 1)) as u32);
                b = b - 1;
            }
            proof {
                assert(b > a) by {
                    if b == a {
                        assert(is_ws_char(s[a as int]));
                    }
                }
                lemma_trailing_ws_from(s, n - b);
                lemma_byte_len_prefix(s, b as int);
            }
            return Span::new(self.span.start + abytes, self.span.end - tbytes);
        }
        // Multi-line: the end of the narrowed span is the first line break
        // after the leading whitespace, when one follows it.
        proof {
            assert(s.contains('\n'));
        }
        let mut j: usize = a;
        let mut mbytes: u32 = 0;
        while j < n && self.raw.get_char(j) != '\n'
            invariant
                a <= j <= n,
                n == s.len(),
                s == self@,
                self.wf(),
                forall|k: int| a <= k < j ==> s[k] != '\n',
                abytes == byte_len(s.take(a as int)),
                mbytes == byte_len(s.subrange(a as int, j as int)),
            decreases n - j,
        {
            proof {
                assert(s.subrange(a as int, j + 1) =~= s.subrange(a as int, j as int) + seq![
                    s[j as int],
                ]);
                lemma_byte_len_concat(s.subrange(a as int, j as int), seq![s[j as int]]);
                lemma_byte_len_singleton(s[j as int]);
                lemma_char_len_bounds(s[j as int]);
                assert(s.take(j + 1) =~= s.take(a as int) + s.subrange(a as int, j + 1));
                lemma_byte_len_concat(s.take(a as int), s.subrange(a as int, j + 1));
                lemma_byte_len_prefix(s, j + 1);
            }
            mbytes = mbytes + (utf8_char_len(self.raw.get_char(j)) as u32);
            j = j + 1;
        }
        proof {
            let rest = s.skip(a as int);
            assert(forall|k: int| 0 <= k < rest.len() ==> rest[k] == s[a + k]);
            if j < n {
                lemma_first_idx_from(rest, '\n', j - a);
                assert(rest[j - a] == '\n');
                assert(rest.contains('\n'));
                assert(rest.take(j - a) =~= s.subrange(a as int, j as int));
            } else {
                if rest.contains('\n') {
                    let k = choose|k: int| 0 <= k < rest.len() && rest[k] == '\n';
                }
            }
            assert(s.take(j as int) =~= s.take(a as int) + s.subrange(a as int, j as int));
            lemma_byte_len_concat(s.take(a as int), s.subrange(a as int, j as int));
            lemma_byte_len_prefix(s, j as int);
        }
        if j < n {
            Span::new(self.span.start + abytes, self.span.start + abytes + mbytes)
        } else {
            Span::new(self.span.start + abytes, self.span.start + abytes)
        }
    }
}

/// A raw text with no line break parses to itself, whitespace-trimmed, with
/// no `*` stripping: a single physical line never carries the block-comment
/// continuation marker.
pub proof fn lemma_parsed_single_line(s: Seq<char>)
    requires
        !s.contains('\n'),
    ensures
        comment_parsed(s) == trim(s),
{
}

/// Any character of the trimmed text occurs in the untrimmed text.
proof fn lemma_trim_contains(s: Seq<char>, c: char)
    ensures
        trim(s).contains(c) ==> s.contains(c),
{
    if trim(s).contains(c) {
        let k = choose|k: int| 0 <= k < trim(s).len() && trim(s)[k] == c;
        crate::text::lemma_leading_ws(s);
        assert(leading_ws(s) < s.len());
        crate::text::lemma_trim_bounds(s);
        crate::text::lemma_trailing_ws(s);
        let a = leading_ws(s);
        let b = s.len() - trailing_ws(s);
        assert(trim(s) == s.subrange(a, b));
        assert(s.subrange(a, b)[k] == s[a + k]);
        assert(s.contains(c));
    }
}

/// Cleaning a line free of line breaks yields a line free of line breaks.
proof fn lemma_clean_line_no_nl(l: Seq<char>)
    requires
        !l.contains('\n'),
    ensures
        !clean_line(l).contains('\n'),
{
    lemma_trim_contains(l, '\n');
    let t = trim(l);
    if t.len() > 0 && t[0] == '*' {
        lemma_trim_contains(t.drop_first(), '\n');
        if t.drop_first().contains('\n') {
            let k = choose|k: int|
                0 <= k < t.drop_first().len() && t.drop_first()[k] == '\n';
            assert(t[k + 1] == '\n');
            assert(t.contains('\n'));
        }
    }
}

/// For a multi-line raw text, every line of the parsed output is non-empty,
/// and each is one source line with at most one leading `*` (plus the
/// whitespace around it) removed, per [`clean_line`]: splitting the parsed
/// output at its line breaks recovers exactly the kept cleaned lines.
pub proof fn lemma_parsed_multi_line(s: Seq<char>)
    requires
        s.contains('\n'),
    ensures
        forall|i: int|
            0 <= i < kept_lines(s).len() ==> (#[trigger] kept_lines(s)[i]).len() > 0,
        forall|i: int|
            0 <= i < kept_lines(s).len() ==> exists|j: int|
                0 <= j < split_lines(s).len() && #[trigger] kept_lines(s)[i] == clean_line(
                    split_lines(s)[j],
                ),
        kept_lines(s).len() > 0 ==> split_lines(comment_parsed(s)) == kept_lines(s),
{
    lemma_kept_lines_of(split_lines(s));
    lemma_split_lines(s);
    if kept_lines(s).len() > 0 {
        assert forall|i: int| 0 <= i < kept_lines(s).len() implies (#[trigger] kept_lines(
            s,
        )[i]).len() > 0 && !kept_lines(s)[i].contains('\n') by {
            let j = choose|j: int|
                0 <= j < split_lines(s).len() && kept_lines(s)[i] == clean_line(
                    split_lines(s)[j],
                );
            lemma_clean_line_no_nl(split_lines(s)[j]);
        }
        lemma_split_join(kept_lines(s));
    }
}

/// On all-whitespace raw text, the narrowed span is the zero-length span at
/// the original start offset.
pub proof fn lemma_trimmed_span_all_ws(raw: Seq<char>, sp: Span)
    requires
        forall|k: int| 0 <= k < raw.len() ==> is_ws_char(raw[k]),
    ensures
        trimmed_first_line_span(raw, sp) == (Span { start: sp.start, end: sp.start }),
{
    lemma_leading_ws_from(raw, raw.len() as int);
}

/// Parsing is a pure function of the part's raw text: two parts wrapping
/// equal text parse identically, so calling `parsed` again returns the same
/// result.
pub proof fn lemma_parsed_deterministic<'a, 'b>(a: JSDocCommentPart<'a>, b: JSDocCommentPart<'b>)
    requires
        a@ == b@,
    ensures
        comment_parsed(a@) == comment_parsed(b@),
{
}

/// Cleans one line: the slice whose view is [`clean_line`] of the view of
/// `l`.
fn clean_line_str<'a>(l: &'a str) -> (r: &'a str)
    ensures
        r@ == clean_line(l@),
{
    let t = trim_str(l);
    let m: usize = t.unicode_len();
    if m >= 1 && t.get_char(0) == '*' {
        let rest = t.substring_char(1, m);
        proof {
            assert(rest@ =~= trim(l@).drop_first());
        }
        trim_str(rest)
    } else {
        t
    }
}

/// Splitting at the first line break decomposes [`kept_lines_of`] of the
/// split into the head line's contribution followed by the rest.
proof fn lemma_kept_lines_of_cons(h: Seq<char>, ls: Seq<Seq<char>>)
    ensures
        kept_lines_of(seq![h] + ls) == if clean_line(h).len() > 0 {
            seq![clean_line(h)] + kept_lines_of(ls)
        } else {
            kept_lines_of(ls)
        },
{
    let whole = seq![h] + ls;
    assert(whole[0] == h);
    assert(whole.drop_first() =~= ls);
}

proof fn lemma_join_lines_cons(x: Seq<char>, ls: Seq<Seq<char>>)
    ensures
        join_lines(seq![x] + ls) == if ls.len() == 0 {
            x
        } else {
            x + seq!['\n'] + join_lines(ls)
        },
{
    let whole = seq![x] + ls;
    assert(whole[0] == x);
    assert(whole.drop_first() =~= ls);
}

/// Every line [`kept_lines_of`] keeps is non-empty, and is the cleaning of
/// some line of `ls`.
proof fn lemma_kept_lines_of(ls: Seq<Seq<char>>)
    ensures
        forall|i: int|
            0 <= i < kept_lines_of(ls).len() ==> (#[trigger] kept_lines_of(ls)[i]).len() > 0,
        forall|i: int|
            0 <= i < kept_lines_of(ls).len() ==> exists|j: int|
                0 <= j < ls.len() && #[trigger] kept_lines_of(ls)[i] == clean_line(ls[j]),
    decreases ls.len(),
{
    if ls.len() > 0 {
        lemma_kept_lines_of(ls.drop_first());
        let rest = kept_lines_of(ls.drop_first());
        let whole = kept_lines_of(ls);
        let shift: int = if clean_line(ls[0]).len() > 0 {
            1
        } else {
            0
        };
        assert(forall|i: int| 0 <= i < rest.len() ==> whole[i + shift] == rest[i]);
        assert forall|i: int| 0 <= i < whole.len() implies (#[trigger] whole[i]).len() > 0
            && exists|j: int| 0 <= j < ls.len() && whole[i] == clean_line(ls[j]) by {
            if shift == 1 && i == 0 {
                assert(whole[0] == clean_line(ls[0]));
            } else {
                assert(whole[i] == rest[i - shift]);
                let j0 = choose|j0: int|
                    0 <= j0 < ls.drop_first().len() && rest[i - shift] == clean_line(
                        ls.drop_first()[j0],
                    );
                assert(ls.drop_first()[j0] == ls[j0 + 1]);
                assert(whole[i] == clean_line(ls[j0 + 1]));
            }
        }
    }
}

/// Joins the cleaned, surviving lines of `s` with `'\n'` separators.
fn join_cleaned(s: &str) -> (r: String)
    ensures
        r@ == join_lines(kept_lines(s@)),
    decreases s@.len(),
{
    let n: usize = s.unicode_len();
    let i: usize = find_char(s, 0, '\n');
    proof {
        lemma_first_idx_from(s@, '\n', i as int);
    }
    if i == n {
        let c = clean_line_str(s);
        proof {
            if s@.contains('\n') {
                let k = choose|k: int| 0 <= k < s@.len() && s@[k] == '\n';
            }
            lemma_split_lines(s@);
            assert(split_lines(s@) == seq![s@]);
            lemma_kept_lines_of_cons(s@, Seq::<Seq<char>>::empty());
            assert(seq![s@] + Seq::<Seq<char>>::empty() =~= seq![s@]);
            assert(kept_lines_of(Seq::<Seq<char>>::empty()) == Seq::<Seq<char>>::empty());
            if clean_line(s@).len() > 0 {
                assert(kept_lines(s@) =~= seq![clean_line(s@)]);
            } else {
                assert(kept_lines(s@) == Seq::<Seq<char>>::empty());
                assert(join_lines(kept_lines(s@)) =~= Seq::<char>::empty());
            }
        }
        c.to_owned()
    } else {
        let head = s.substring_char(0, i);
        let hc = clean_line_str(head);
        let rest = s.substring_char(i + 1, n);
        let rest_str = join_cleaned(rest);
        proof {
            assert(head@ =~= s@.take(i as int));
            assert(rest@ =~= s@.skip(i + 1));
            assert(split_lines(s@) == seq![s@.take(i as int)] + split_lines(s@.skip(i + 1)));
            lemma_kept_lines_of_cons(head@, split_lines(rest@));
            lemma_kept_lines_of(split_lines(rest@));
        }
        if hc.is_empty() {
            proof {
                assert(kept_lines(s@) == kept_lines(rest@));
            }
            rest_str
        } else if rest_str.as_str().is_empty() {
            proof {
                assert(kept_lines(rest@).len() == 0) by {
                    if kept_lines(rest@).len() > 0 {
                        lemma_join_lines_nonempty(kept_lines(rest@));
                    }
                }
                lemma_join_lines_cons(hc@, kept_lines(rest@));
                assert(kept_lines(s@) == seq![clean_line(head@)] + kept_lines(rest@));
            }
            hc.to_owned()
        } else {
            proof {
                assert(kept_lines(rest@).len() > 0) by {
                    if kept_lines(rest@).len() == 0 {
                        assert(kept_lines(rest@) =~= Seq::<Seq<char>>::empty());
                        assert(join_lines(kept_lines(rest@)) =~= Seq::<char>::empty());
                    }
                }
                lemma_join_lines_cons(hc@, kept_lines(rest@));
                assert(kept_lines(s@) == seq![clean_line(head@)] + kept_lines(rest@));
                reveal_strlit("\n");
                assert("\n"@ =~= seq!['\n']);
            }
            let mut out = hc.to_owned();
            out.append("\n");
            out.append(rest_str.as_str());
            proof {
                assert(out@ =~= hc@ + seq!['\n'] + rest_str@);
            }
            out
        }
    }
}

} // verus!
