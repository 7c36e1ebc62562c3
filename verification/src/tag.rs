//! The `@kind`, `{type}` and name parts of a JSDoc tag.

use crate::span::Span;
use crate::text::contains_char;
use crate::text::find_char;
use crate::text::first_idx;
use crate::text::is_ws_char;
use crate::text::lemma_first_idx_from;
use crate::text::lemma_leading_ws_from;
use crate::text::lemma_trailing_ws_from;
use crate::text::trim;
use crate::text::trim_str;
use vstd::prelude::*;
use vstd::string::StrSliceExecFns;

verus! {

/// The `@kind` keyword of a tag, such as `@param`: a raw substring of the
/// source that starts with `@`, plus its span.
#[derive(Debug, Clone, Copy)]
pub struct JSDocTagKindPart<'a> {
    /// The raw substring, `@` marker included.
    pub raw: &'a str,
    /// The span in the source text corresponding to this part.
    pub span: Span,
}

impl<'a> View for JSDocTagKindPart<'a> {
    type V = Seq<char>;

    open spec fn view(&self) -> Seq<char> {
        self.raw@
    }
}

impl<'a> JSDocTagKindPart<'a> {
    /// The part's invariant: the raw text carries its leading `@` marker.
    pub open spec fn wf(self) -> bool {
        self@.len() >= 1 && self@[0] == '@'
    }

    /// Wraps a raw `@kind` substring, already isolated and
    /// whitespace-trimmed by the caller, together with its span.
    pub fn new(part_content: &'a str, span: Span) -> (p: Self)
        requires
            part_content@.len() >= 1,
            part_content@[0] == '@',
        ensures
            p@ == part_content@,
            p.span == span,
            p.wf(),
    {
        Self { raw: part_content, span }
    }

    /// The kind with the leading `@` removed: `param`, `type`, or any other
    /// word the comment author wrote.
    pub fn parsed(&self) -> (r: &'a str)
        requires
            self.wf(),
        ensures
            r@ == self@.drop_first(),
    {
        let n = self.raw.unicode_len();
        let r = self.raw.substring_char(1, n);
        proof {
            assert(r@ =~= self@.drop_first());
        }
        r
    }
}

/// What parsing a `{type}` part yields: the text between the outer braces,
/// whitespace-trimmed. Inner braces are kept verbatim.
pub open spec fn type_parsed(s: Seq<char>) -> Seq<char> {
    trim(s.subrange(1, s.len() - 1))
}

/// The `{type}` expression of a tag, braces included: a raw substring of the
/// source delimited by `{` and `}`, plus its span.
#[derive(Debug, Clone, Copy, PartialEq, Eq)]
pub struct JSDocTagTypePart<'a> {
    /// The raw, unprocessed type expression, outer braces included.
    pub raw: &'a str,
    /// The span in the source text covering the entire `{...}` expression,
    /// braces included.
    pub span: Span,
}

impl<'a> View for JSDocTagTypePart<'a> {
    type V = Seq<char>;

    open spec fn view(&self) -> Seq<char> {
        self.raw@
    }
}

impl<'a> JSDocTagTypePart<'a> {
    /// The part's invariant: the raw text carries its outer braces.
    pub open spec fn wf(self) -> bool {
        self@.len() >= 2 && self@[0] == '{' && self@[self@.len() - 1] == '}'
    }

    /// Wraps a raw `{type}` substring, already isolated by the caller,
    /// together with its span.
    pub fn new(part_content: &'a str, span: Span) -> (p: Self)
        requires
            part_content@.len() >= 2,
            part_content@[0] == '{',
            part_content@[part_content@.len() - 1] == '}',
        ensures
            p@ == part_content@,
            p.span == span,
            p.wf(),
    {
        Self { raw: part_content, span }
    }

    /// The type expression without the outer `{` and `}`, whitespace-trimmed.
    /// The expression's internal grammar is left opaque: nested braces are
    /// preserved verbatim, so `{{x:1}}` parses to `{x:1}`.
    pub fn parsed(&self) -> (r: &'a str)
        requires
            self.wf(),
        ensures
            r@ == type_parsed(self@),
    {
        let n = self.raw.unicode_len();
        let inner = self.raw.substring_char(1, n - 1);
        trim_str(inner)
    }
}

/// Whether a raw name substring carries the optional modifier: it is
/// bracket-delimited, `[name]`.
pub open spec fn is_optional(s: Seq<char>) -> bool {
    s.len() >= 2 && s[0] == '[' && s[s.len() - 1] == ']'
}

/// What parsing a name part yields: the raw text itself when it carries no
/// modifier; otherwise the text between the outer brackets, trimmed, and cut
/// at the first `=` (whose right-hand side is the default value, discarded
/// here).
pub open spec fn type_name_parsed(s: Seq<char>) -> Seq<char> {
    if is_optional(s) {
        let inner = trim(s.subrange(1, s.len() - 1));
        if inner.contains('=') {
            trim(inner.take(first_idx(inner, '=')))
        } else {
            inner
        }
    } else {
        s
    }
}

/// The name a tag applies to, with its optional/default modifiers: a raw
/// substring of the source such as `bar`, `[bar]` or `[bar = 1]`, plus its
/// span and the two modifier flags computed at construction.
#[derive(Debug, Clone, Copy, PartialEq, Eq)]
pub struct JSDocTagTypeNamePart<'a> {
    /// The raw substring, modifiers included.
    pub raw: &'a str,
    /// The span in the source text corresponding to this part.
    pub span: Span,
    /// Whether the name is marked optional: bracket-delimited, `[name]`.
    pub optional: bool,
    /// Whether the name carries a default value: optional, with an `=`
    /// inside, `[name = value]`.
    pub default: bool,
}

impl<'a> View for JSDocTagTypeNamePart<'a> {
    type V = Seq<char>;

    open spec fn view(&self) -> Seq<char> {
        self.raw@
    }
}

impl<'a> JSDocTagTypeNamePart<'a> {
    /// The part's invariant: the raw text has no surrounding whitespace, and
    /// the two flags say exactly what the text shows.
    pub open spec fn wf(self) -> bool {
        &&& trim(self@) == self@
        &&& self.optional == is_optional(self@)
        &&& self.default == (is_optional(self@) && self@.contains('='))
    }

    /// Wraps a raw name substring, already isolated and whitespace-trimmed
    /// by the caller, together with its span, and computes the two modifier
    /// flags.
    pub fn new(part_content: &'a str, span: Span) -> (p: Self)
        requires
            part_content@.len() > 0 ==> !is_ws_char(part_content@[0]) && !is_ws_char(
                part_content@[part_content@.len() - 1],
            ),
        ensures
            p@ == part_content@,
            p.span == span,
            p.wf(),
    {
        proof {
            lemma_leading_ws_from(part_content@, 0);
            lemma_trailing_ws_from(part_content@, 0);
            assert(trim(part_content@) =~= part_content@);
        }
        let n = part_content.unicode_len();
        let optional = n >= 2 && part_content.get_char(0) == '[' && part_content.get_char(n - 1)
            == ']';
        let default = optional && contains_char(part_content, '=');
        Self { raw: part_content, span, optional, default }
    }

    /// A name marked with a default value is also optional.
    pub proof fn lemma_default_implies_optional(self)
        requires
            self.wf(),
        ensures
            self.default ==> self.optional,
    {
    }

    /// The bare name: the raw text itself when it carries no modifier;
    /// otherwise the outer brackets are stripped, the remainder trimmed, and
    /// everything from the first `=` on (the default value) discarded, so
    /// `[foo = [ 1 ]]` parses to `foo`.
    pub fn parsed(&self) -> (r: &'a str)
        requires
            self.wf(),
        ensures
            r@ == type_name_parsed(self@),
    {
        if self.optional {
            let n = self.raw.unicode_len();
            let inner_raw = self.raw.substring_char(1, n - 1);
            let inner = trim_str(inner_raw);
            proof {
                assert(inner_raw@ =~= self@.subrange(1, self@.len() - 1));
            }
            let m = inner.unicode_len();
            let k = find_char(inner, 0, '=');
            if k < m {
                let left = inner.substring_char(0, k);
                proof {
                    lemma_first_idx_from(inner@, '=', k as int);
                    assert(inner@.contains('='));
                    assert(left@ =~= inner@.take(first_idx(inner@, '=')));
                }
                trim_str(left)
            } else {
                proof {
                    if inner@.contains('=') {
                        let j = choose|j: int| 0 <= j < inner@.len() && inner@[j] == '=';
                    }
                }
                inner
            }
        } else {
            self.raw
        }
    }
}

/// Parsing a kind part is a pure function of its raw text: two parts
/// wrapping equal text parse identically, so calling `parsed` again returns
/// the same result.
pub proof fn lemma_kind_parsed_deterministic<'a, 'b>(
    a: JSDocTagKindPart<'a>,
    b: JSDocTagKindPart<'b>,
)
    requires
        a@ == b@,
    ensures
        a@.drop_first() == b@.drop_first(),
{
}

/// Parsing a type part is a pure function of its raw text.
pub proof fn lemma_type_parsed_deterministic<'a, 'b>(
    a: JSDocTagTypePart<'a>,
    b: JSDocTagTypePart<'b>,
)
    requires
        a@ == b@,
    ensures
        type_parsed(a@) == type_parsed(b@),
{
}

/// Parsing a type-name part is a pure function of its raw text.
pub proof fn lemma_type_name_parsed_deterministic<'a, 'b>(
    a: JSDocTagTypeNamePart<'a>,
    b: JSDocTagTypeNamePart<'b>,
)
    requires
        a@ == b@,
    ensures
        type_name_parsed(a@) == type_name_parsed(b@),
{
}

} // verus!
