//! Reading the source of a grammar: comments, headers, rules and the files
//! that a file includes.

use super::place::{
    byte_offset, byte_offset_of, lemma_byte_offset_is_encoded_length, place_in_source,
    source_place,
};
use crate::share_str::ShareStr;
use vstd::prelude::*;

verus! {

/// A segment of a rule as it stands in the source: literal text, or the
/// name of the section referred to.
#[derive(Debug)]
pub enum ExprSeg {
    Text(ShareStr),
    Use(ShareStr),
}

/// Model of a segment as it stands in the source.
pub enum ExprSegModel {
    Text(Seq<char>),
    Use(Seq<char>),
}

impl View for ExprSeg {
    type V = ExprSegModel;

    open spec fn view(&self) -> ExprSegModel {
        match self {
            ExprSeg::Text(t) => ExprSegModel::Text(t@),
            ExprSeg::Use(n) => ExprSegModel::Use(n@),
        }
    }
}

/// Name of a section and the file that defines it.
#[derive(Debug)]
pub struct SecInfo {
    pub name: ShareStr,
    pub file: ShareStr,
}

impl Clone for SecInfo {
    fn clone(&self) -> (r: Self)
        ensures
            r == *self,
    {
        SecInfo { name: self.name.clone(), file: self.file.clone() }
    }
}

/// A section as it stands in the source.
#[derive(Debug)]
pub struct ExprSection {
    pub rules: Vec<Vec<ExprSeg>>,
    pub info: SecInfo,
}

/// Model of a section as it stands in the source.
pub struct ExprSectionModel {
    pub rules: Seq<Seq<ExprSegModel>>,
    pub name: Seq<char>,
    pub file: Seq<char>,
}

/// The model of a rule: the model of each of its segments.
pub open spec fn expr_rule_view(rule: Seq<ExprSeg>) -> Seq<ExprSegModel> {
    Seq::new(rule.len(), |j: int| rule[j]@)
}

/// The model of a list of rules.
pub open spec fn expr_rules_view(rules: Seq<Vec<ExprSeg>>) -> Seq<Seq<ExprSegModel>> {
    Seq::new(rules.len(), |i: int| expr_rule_view(rules[i]@))
}

impl View for ExprSection {
    type V = ExprSectionModel;

    open spec fn view(&self) -> ExprSectionModel {
        ExprSectionModel {
            rules: expr_rules_view(self.rules@),
            name: self.info.name@,
            file: self.info.file@,
        }
    }
}

/// The model of a list of sections.
pub open spec fn expr_sections_view(sections: Seq<ExprSection>) -> Seq<ExprSectionModel> {
    Seq::new(sections.len(), |i: int| sections[i]@)
}

/// Whether `c` has the Unicode property `White_Space`, as
/// `char::is_whitespace` reports it.
pub uninterp spec fn unicode_white_space(c: char) -> bool;

/// Whether `c` has the Unicode property `XID_Continue`, as the crate
/// `unicode_ident` reports it.
pub uninterp spec fn xid_continue(c: char) -> bool;

/// Calls `char::is_whitespace`; the result is named, not described.
#[verifier::external_body]
fn is_whitespace(c: char) -> (b: bool)
    ensures
        b == unicode_white_space(c),
{
    c.is_whitespace()
}

/// Calls `unicode_ident::is_xid_continue`; the result is named, not
/// described.
#[verifier::external_body]
fn is_xid_continue(c: char) -> (b: bool)
    ensures
        b == xid_continue(c),
{
    unicode_ident::is_xid_continue(c)
}

/// The sets of characters that the grammar of the source is made of.
#[derive(Clone, Copy, PartialEq, Eq, Structural)]
pub enum CharClass {
    /// Space, tab, carriage return and line feed.
    Multispace,
    /// Unicode white space.
    Whitespace,
    /// What the text of a rule may hold: all but `{`, `[` and the line ends.
    RuleText,
    /// What a quoted string may hold: all but `"` and the line ends.
    StringBody,
    /// What a comment may hold: all but the line ends.
    CommentBody,
    /// What the name in a section header may hold: all but white space and
    /// `]`.
    HeaderName,
    /// What the name in a reference may hold.
    Identifier,
}

/// Whether the character `c` belongs to the class.
pub open spec fn class_has(class: CharClass, c: char) -> bool {
    match class {
        CharClass::Multispace => c == ' ' || c == '\t' || c == '\r' || c == '\n',
        CharClass::Whitespace => unicode_white_space(c),
        CharClass::RuleText => c != '{' && c != '[' && c != '\r' && c != '\n',
        CharClass::StringBody => c != '"' && c != '\r' && c != '\n',
        CharClass::CommentBody => c != '\r' && c != '\n',
        CharClass::HeaderName => !unicode_white_space(c) && c != ']',
        CharClass::Identifier => xid_continue(c),
    }
}

fn class_contains(class: CharClass, c: char) -> (b: bool)
    ensures
        b == class_has(class, c),
{
    match class {
        CharClass::Multispace => c == ' ' || c == '\t' || c == '\r' || c == '\n',
        CharClass::Whitespace => is_whitespace(c),
        CharClass::RuleText => c != '{' && c != '[' && c != '\r' && c != '\n',
        CharClass::StringBody => c != '"' && c != '\r' && c != '\n',
        CharClass::CommentBody => c != '\r' && c != '\n',
        CharClass::HeaderName => !is_whitespace(c) && c != ']',
        CharClass::Identifier => is_xid_continue(c),
    }
}

/// Where the longest run of characters of `class` that starts at `i` ends.
pub open spec fn run_end(s: Seq<char>, i: int, class: CharClass) -> int
    decreases s.len() - i,
{
    if 0 <= i < s.len() && class_has(class, s[i]) {
        run_end(s, i + 1, class)
    } else {
        i
    }
}

/// A run ends within the text, holds only characters of its class, and
/// stops before a character that is not of it.
pub proof fn lemma_run_end(s: Seq<char>, i: int, class: CharClass)
    requires
        0 <= i <= s.len(),
    ensures
        i <= run_end(s, i, class) <= s.len(),
        forall|k: int| i <= k < run_end(s, i, class) ==> class_has(class, #[trigger] s[k]),
        run_end(s, i, class) < s.len() ==> !class_has(class, s[run_end(s, i, class)]),
    decreases s.len() - i,
{
    if i < s.len() && class_has(class, s[i]) {
        lemma_run_end(s, i + 1, class);
    }
}

/// Whether a line feed stands in `s[i..j]`.
pub open spec fn has_newline(s: Seq<char>, i: int, j: int) -> bool {
    exists|k: int| i <= k < j && 0 <= k < s.len() && s[k] == '\n'
}

/// Where the longest run of characters of `class` that starts at `i` ends,
/// and whether a line feed stands in it.
pub(crate) fn scan_run(s: &ShareStr, i: usize, class: CharClass) -> (r: (usize, bool))
    requires
        i <= s@.len(),
    ensures
        r.0 == run_end(s@, i as int, class),
        i <= r.0 <= s@.len(),
        r.1 == has_newline(s@, i as int, r.0 as int),
{
    let n = s.len();
    let mut j = i;
    let mut newline = false;
    while j < n && class_contains(class, s.char_at(j))
        invariant
            i <= j <= n,
            n == s@.len(),
            run_end(s@, i as int, class) == run_end(s@, j as int, class),
            newline == has_newline(s@, i as int, j as int),
        decreases n - j,
    {
        if s.char_at(j) == '\n' {
            newline = true;
        }
        j += 1;
    }
    (j, newline)
}

/// What is wrong with a source text.
#[derive(Clone, Copy, Debug, PartialEq, Eq, Structural)]
pub enum ParseErrorKind {
    /// A `"` that does not open a string closed on the same line, or that
    /// opens an empty one.
    BrokenString,
    /// No name after the `{` of a reference.
    ExpectedName,
    /// No `}` after the name of a reference.
    ExpectedClose,
    /// Text where a section header, a rule or the end of the file should be.
    UnexpectedText,
}

/// A source text that does not follow the grammar: what is wrong, in which
/// file, and at which byte of the text.
#[derive(Debug)]
pub struct ParseError {
    pub kind: ParseErrorKind,
    pub file: ShareStr,
    pub offset: usize,
}

/// The text `s[i..]` without its comments, or the place of the `"` at which
/// no string begins.
///
/// A comment runs from a `#` to the end of its line; a `#` inside a string
/// opens none.  A string is a `"`, one or more characters other than `"` and
/// the line ends, and a `"`.
pub open spec fn strip_comments(s: Seq<char>, i: int) -> Result<Seq<char>, int>
    decreases s.len() - i,
{
    if i < 0 || i >= s.len() {
        Ok(Seq::empty())
    } else if s[i] == '"' {
        match string_at(s, i) {
            None => Err(i),
            Some(j) => {
                proof {
                    lemma_run_end(s, i + 1, CharClass::StringBody);
                }
                match strip_comments(s, j + 1) {
                    Err(p) => Err(p),
                    Ok(rest) => Ok(s.subrange(i, j + 1) + rest),
                }
            },
        }
    } else if s[i] == '#' {
        proof {
            lemma_run_end(s, i + 1, CharClass::CommentBody);
        }
        strip_comments(s, run_end(s, i + 1, CharClass::CommentBody))
    } else {
        match strip_comments(s, i + 1) {
            Err(p) => Err(p),
            Ok(rest) => Ok(seq![s[i]] + rest),
        }
    }
}

/// Where the string that opens at `i` closes.
pub open spec fn string_at(s: Seq<char>, i: int) -> Option<int> {
    let j = run_end(s, i + 1, CharClass::StringBody);
    if 0 <= i < s.len() && s[i] == '"' && i + 1 < j < s.len() && s[j] == '"' {
        Some(j)
    } else {
        None
    }
}

/// Where the white space that ends a header or a rule at `i` ends: the run
/// of spaces, tabs and line ends from `i` on, which must hold a line feed or
/// reach the end of the text.
pub open spec fn end_spaces_at(s: Seq<char>, i: int) -> Option<int> {
    let j = run_end(s, i, CharClass::Multispace);
    if has_newline(s, i, j) || j >= s.len() {
        Some(j)
    } else {
        None
    }
}

/// Whether the word `include` stands at `i`.
pub open spec fn include_at(s: Seq<char>, i: int) -> bool {
    &&& 0 <= i
    &&& i + 7 <= s.len()
    &&& s[i] == 'i'
    &&& s[i + 1] == 'n'
    &&& s[i + 2] == 'c'
    &&& s[i + 3] == 'l'
    &&& s[i + 4] == 'u'
    &&& s[i + 5] == 'd'
    &&& s[i + 6] == 'e'
}

/// Model of a section header.
pub enum HeaderModel {
    /// `[name]`: the section `name` follows.
    Inline(Seq<char>),
    /// `[include "path"]`: the file at `path` is to be read here.
    File(Seq<char>),
}

/// What stands between the brackets of a header whose `[` is just before
/// `b`: the word `include`, white space and a string, or else a name. With
/// it, the place where it ends.
pub open spec fn header_body_at(s: Seq<char>, b: int) -> Option<(HeaderModel, int)> {
    let c = b + 7;
    let d = run_end(s, c, CharClass::Multispace);
    if include_at(s, b) && d > c && string_at(s, d) is Some {
        let e = string_at(s, d)->0;
        Some((HeaderModel::File(s.subrange(d + 1, e)), e + 1))
    } else {
        let e = run_end(s, b, CharClass::HeaderName);
        if 0 <= b < e {
            Some((HeaderModel::Inline(s.subrange(b, e)), e))
        } else {
            None
        }
    }
}

/// The header that begins at `i`, after white space if there is any, and
/// the place after the white space that ends it.
pub open spec fn header_at(s: Seq<char>, i: int) -> Option<(HeaderModel, int)> {
    let a = run_end(s, i, CharClass::Multispace);
    if 0 <= a < s.len() && s[a] == '[' {
        match header_body_at(s, a + 1) {
            None => None,
            Some((h, e)) => if 0 <= e < s.len() && s[e] == ']' {
                match end_spaces_at(s, e + 1) {
                    None => None,
                    Some(f) => Some((h, f)),
                }
            } else {
                None
            },
        }
    } else {
        None
    }
}

/// A header that was read ends after where it began, within the text.
pub proof fn lemma_header_at(s: Seq<char>, i: int)
    requires
        0 <= i <= s.len(),
    ensures
        header_at(s, i) matches Some((h, f)) ==> i < f <= s.len(),
{
    let a = run_end(s, i, CharClass::Multispace);
    lemma_run_end(s, i, CharClass::Multispace);
    if a < s.len() && s[a] == '[' {
        if let Some((h, e)) = header_body_at(s, a + 1) {
            if 0 <= e < s.len() {
                lemma_run_end(s, e + 1, CharClass::Multispace);
            }
        }
    }
}

/// What the segment parser finds at a place.
pub enum SegOutcome {
    Seg(ExprSegModel, int),
    NoMatch,
    Fatal(ParseErrorKind, int),
}

/// The segment at `i`: a reference `{name}`, or a run of text.  After a `{`
/// there is no way back: a missing name or `}` fails the whole parse.
pub open spec fn seg_at(s: Seq<char>, i: int) -> SegOutcome {
    if 0 <= i < s.len() && s[i] == '{' {
        let j = run_end(s, i + 1, CharClass::Identifier);
        if j == i + 1 {
            SegOutcome::Fatal(ParseErrorKind::ExpectedName, j)
        } else if j < s.len() && s[j] == '}' {
            SegOutcome::Seg(ExprSegModel::Use(s.subrange(i + 1, j)), j + 1)
        } else {
            SegOutcome::Fatal(ParseErrorKind::ExpectedClose, j)
        }
    } else {
        let j = run_end(s, i, CharClass::RuleText);
        if 0 <= i < j {
            SegOutcome::Seg(ExprSegModel::Text(s.subrange(i, j)), j)
        } else {
            SegOutcome::NoMatch
        }
    }
}

/// A segment, and a fault in one, end after where they began, within the
/// text.
pub proof fn lemma_seg_at(s: Seq<char>, i: int)
    requires
        0 <= i <= s.len(),
    ensures
        seg_at(s, i) matches SegOutcome::Seg(_, j) ==> i < j <= s.len(),
        seg_at(s, i) matches SegOutcome::Fatal(_, j) ==> i < j <= s.len(),
{
    if i < s.len() {
        lemma_run_end(s, i + 1, CharClass::Identifier);
    }
    lemma_run_end(s, i, CharClass::RuleText);
}

/// The segments that follow one another from `i` on, and where they end.
pub open spec fn segs_from(s: Seq<char>, i: int) -> Result<
    (Seq<ExprSegModel>, int),
    (ParseErrorKind, int),
>
    decreases s.len() - i,
{
    if i < 0 || i > s.len() {
        Ok((Seq::empty(), i))
    } else {
        match seg_at(s, i) {
            SegOutcome::NoMatch => Ok((Seq::empty(), i)),
            SegOutcome::Fatal(kind, at) => Err((kind, at)),
            SegOutcome::Seg(seg, j) => {
                proof {
                    lemma_seg_at(s, i);
                }
                match segs_from(s, j) {
                    Err(e) => Err(e),
                    Ok((rest, k)) => Ok((seq![seg] + rest, k)),
                }
            },
        }
    }
}

/// Segments end within the text, and after where they began if there is
/// one; a fault lies after where they began.
pub proof fn lemma_segs_from(s: Seq<char>, i: int)
    requires
        0 <= i <= s.len(),
    ensures
        segs_from(s, i) matches Ok((segs, k)) ==> i <= k <= s.len() && (segs.len() > 0 ==> i < k),
        segs_from(s, i) matches Err((_, at)) ==> i < at <= s.len(),
    decreases s.len() - i,
{
    lemma_seg_at(s, i);
    if let SegOutcome::Seg(seg, j) = seg_at(s, i) {
        lemma_segs_from(s, j);
    }
}

/// `t` without the white space at its start.
pub open spec fn trim_start(t: Seq<char>) -> Seq<char> {
    t.subrange(run_end(t, 0, CharClass::Whitespace), t.len() as int)
}

/// The length of `t[..n]` without the white space at its end.
pub open spec fn trim_end_len(t: Seq<char>, n: int) -> int
    decreases n,
{
    if 0 < n <= t.len() && unicode_white_space(t[n - 1]) {
        trim_end_len(t, n - 1)
    } else {
        n
    }
}

/// `t` without the white space at its end.
pub open spec fn trim_end(t: Seq<char>) -> Seq<char> {
    t.take(trim_end_len(t, t.len() as int))
}

/// What is left after trimming is no longer than what was there.
pub proof fn lemma_trim_end_len(t: Seq<char>, n: int)
    requires
        0 <= n <= t.len(),
    ensures
        0 <= trim_end_len(t, n) <= n,
    decreases n,
{
    if 0 < n && unicode_white_space(t[n - 1]) {
        lemma_trim_end_len(t, n - 1);
    }
}

/// The segments of a rule as they are kept: white space is cut from the
/// start of the rule where it starts with text, and from its end where it
/// ends with text.
pub open spec fn trim_rule(segs: Seq<ExprSegModel>) -> Seq<ExprSegModel> {
    let a = if segs.len() > 0 && segs[0] is Text {
        segs.update(0, ExprSegModel::Text(trim_start(segs[0]->Text_0)))
    } else {
        segs
    };
    if a.len() > 0 && a.last() is Text {
        a.update(a.len() - 1, ExprSegModel::Text(trim_end(a.last()->Text_0)))
    } else {
        a
    }
}

/// What the rule parser finds at a place.
pub enum RuleOutcome {
    Rule(Seq<ExprSegModel>, int),
    NoMatch,
    Fatal(ParseErrorKind, int),
}

/// The rule at `i`: one or more segments, then the white space that ends
/// the line or the text.
pub open spec fn rule_at(s: Seq<char>, i: int) -> RuleOutcome {
    match segs_from(s, i) {
        Err((kind, at)) => RuleOutcome::Fatal(kind, at),
        Ok((segs, j)) => if segs.len() == 0 {
            RuleOutcome::NoMatch
        } else {
            match end_spaces_at(s, j) {
                None => RuleOutcome::NoMatch,
                Some(k) => RuleOutcome::Rule(trim_rule(segs), k),
            }
        },
    }
}

/// A rule, and a fault in one, end after where they began, within the text.
pub proof fn lemma_rule_at(s: Seq<char>, i: int)
    requires
        0 <= i <= s.len(),
    ensures
        rule_at(s, i) matches RuleOutcome::Rule(_, k) ==> i < k <= s.len(),
        rule_at(s, i) matches RuleOutcome::Fatal(_, at) ==> i < at <= s.len(),
{
    lemma_segs_from(s, i);
    if let Ok((segs, j)) = segs_from(s, i) {
        lemma_run_end(s, j, CharClass::Multispace);
    }
}

/// The rules that follow one another from `i` on, and where they end.
pub open spec fn rules_from(s: Seq<char>, i: int) -> Result<
    (Seq<Seq<ExprSegModel>>, int),
    (ParseErrorKind, int),
>
    decreases s.len() - i,
{
    if i < 0 || i > s.len() {
        Ok((Seq::empty(), i))
    } else {
        match rule_at(s, i) {
            RuleOutcome::NoMatch => Ok((Seq::empty(), i)),
            RuleOutcome::Fatal(kind, at) => Err((kind, at)),
            RuleOutcome::Rule(rule, j) => {
                proof {
                    lemma_rule_at(s, i);
                }
                match rules_from(s, j) {
                    Err(e) => Err(e),
                    Ok((rest, k)) => Ok((seq![rule] + rest, k)),
                }
            },
        }
    }
}

/// Rules end within the text at or after where they began; a fault lies
/// after it.
pub proof fn lemma_rules_from(s: Seq<char>, i: int)
    requires
        0 <= i <= s.len(),
    ensures
        rules_from(s, i) matches Ok((_, k)) ==> i <= k <= s.len(),
        rules_from(s, i) matches Err((_, at)) ==> i < at <= s.len(),
    decreases s.len() - i,
{
    lemma_rule_at(s, i);
    if let RuleOutcome::Rule(rule, j) = rule_at(s, i) {
        lemma_rules_from(s, j);
    }
}

/// Model of what a source file holds, in order.
pub enum ItemModel {
    /// A file to be read in this place.
    Include(Seq<char>),
    /// A section and its rules.
    Section { name: Seq<char>, rules: Seq<Seq<ExprSegModel>> },
}

/// The headers from `i` on, each with the rules that follow it, and where
/// they end.
pub open spec fn items_from(s: Seq<char>, i: int) -> Result<
    (Seq<ItemModel>, int),
    (ParseErrorKind, int),
>
    decreases s.len() - i,
{
    if i < 0 || i > s.len() {
        Ok((Seq::empty(), i))
    } else {
        match header_at(s, i) {
            None => Ok((Seq::empty(), i)),
            Some((header, j)) => {
                proof {
                    lemma_header_at(s, i);
                    lemma_rules_from(s, j);
                }
                let body = match header {
                    HeaderModel::File(path) => Ok((ItemModel::Include(path), j)),
                    HeaderModel::Inline(name) => match rules_from(s, j) {
                        Err(e) => Err(e),
                        Ok((rules, k)) => Ok((ItemModel::Section { name, rules }, k)),
                    },
                };
                match body {
                    Err(e) => Err(e),
                    Ok((item, k)) => match items_from(s, k) {
                        Err(e) => Err(e),
                        Ok((rest, end)) => Ok((seq![item] + rest, end)),
                    },
                }
            },
        }
    }
}

/// What a text without comments holds: headers with their rules up to the
/// end of the text.
pub open spec fn parse_clean(s: Seq<char>) -> Result<Seq<ItemModel>, (ParseErrorKind, int)> {
    match items_from(s, 0) {
        Err(e) => Err(e),
        Ok((items, end)) => if end >= s.len() {
            Ok(items)
        } else {
            Err((ParseErrorKind::UnexpectedText, end))
        },
    }
}

/// What a source text holds; where it does not follow the grammar, what is
/// wrong and how many bytes of the text lie before the place.
pub open spec fn parse_source(raw: Seq<char>) -> Result<Seq<ItemModel>, (ParseErrorKind, int)> {
    match strip_comments(raw, 0) {
        Err(at) => Err((ParseErrorKind::BrokenString, byte_offset(raw, at) as int)),
        Ok(clean) => match parse_clean(clean) {
            Ok(items) => Ok(items),
            Err((kind, at)) => Err((kind, byte_offset(raw, source_place(raw, 0, at)) as int)),
        },
    }
}

/// A section header: the name of the section that follows, or the path of
/// a file to be read in its place.
#[derive(Debug)]
pub enum SectionHeader {
    Inline(ShareStr),
    File(ShareStr),
}

impl View for SectionHeader {
    type V = HeaderModel;

    open spec fn view(&self) -> HeaderModel {
        match self {
            SectionHeader::Inline(name) => HeaderModel::Inline(name@),
            SectionHeader::File(path) => HeaderModel::File(path@),
        }
    }
}

/// The error of the given kind at the character `place` of the text `raw`
/// of a file, which takes `size` bytes.
fn error_at(kind: ParseErrorKind, file: &ShareStr, raw: &ShareStr, place: usize, size: usize) -> (e:
    ParseError)
    requires
        place <= raw@.len(),
        size == byte_offset(raw@, raw@.len() as int),
    ensures
        e.kind == kind,
        e.file@ == file@,
        e.offset == byte_offset(raw@, place as int),
{
    let offset = if place == raw.len() {
        size
    } else {
        byte_offset_of(raw, place)
    };
    ParseError { kind, file: file.clone(), offset }
}

/// The text without its comments.
pub fn remove_comments(raw: &ShareStr) -> (r: Result<Vec<char>, usize>)
    ensures
        match strip_comments(raw@, 0) {
            Ok(clean) => (r matches Ok(v) && v@ == clean),
            Err(at) => (r matches Err(p) && p == at && p < raw@.len()),
        },
{
    let n = raw.len();
    let mut out: Vec<char> = Vec::new();
    let mut i: usize = 0;
    while i < n
        invariant
            i <= n == raw@.len(),
            strip_comments(raw@, 0) == match strip_comments(raw@, i as int) {
                Ok(rest) => Ok(out@ + rest),
                Err(at) => Err(at),
            },
        decreases n - i,
    {
        let c = raw.char_at(i);
        let ghost done = out@;
        if c == '"' {
            match string_expr(raw, i) {
                None => {
                    return Err(i);
                },
                Some(j) => {
                    let mut k = i;
                    while k <= j
                        invariant
                            i <= k <= j + 1,
                            j < n == raw@.len(),
                            out@ == done + raw@.subrange(i as int, k as int),
                        decreases j + 1 - k,
                    {
                        out.push(raw.char_at(k));
                        k += 1;
                        assert(out@ =~= done + raw@.subrange(i as int, k as int));
                    }
                    proof {
                        if let Ok(rest) = strip_comments(raw@, j + 1) {
                            assert(done + (raw@.subrange(i as int, j + 1) + rest) =~= out@ + rest);
                        }
                    }
                    i = j + 1;
                },
            }
        } else if c == '#' {
            let (j, _) = scan_run(raw, i + 1, CharClass::CommentBody);
            i = j;
        } else {
            out.push(c);
            proof {
                if let Ok(rest) = strip_comments(raw@, i + 1) {
                    assert(done + (seq![c] + rest) =~= out@ + rest);
                }
            }
            i += 1;
        }
    }
    assert(out@ + Seq::<char>::empty() =~= out@);
    Ok(out)
}

/// Where the string that opens at `i` closes.
pub fn string_expr(s: &ShareStr, i: usize) -> (r: Option<usize>)
    requires
        i <= s@.len(),
    ensures
        match r {
            Some(j) => string_at(s@, i as int) == Some(j as int) && i + 1 < j < s@.len(),
            None => string_at(s@, i as int) is None,
        },
{
    if i >= s.len() || s.char_at(i) != '"' {
        return None;
    }
    let (j, _) = scan_run(s, i + 1, CharClass::StringBody);
    if j > i + 1 && j < s.len() && s.char_at(j) == '"' {
        Some(j)
    } else {
        None
    }
}

/// Where the white space that ends a header or a rule at `i` ends.
pub fn end_spaces(s: &ShareStr, i: usize) -> (r: Option<usize>)
    requires
        i <= s@.len(),
    ensures
        match r {
            Some(j) => end_spaces_at(s@, i as int) == Some(j as int) && i <= j <= s@.len(),
            None => end_spaces_at(s@, i as int) is None,
        },
{
    let (j, newline) = scan_run(s, i, CharClass::Multispace);
    if newline || j >= s.len() {
        Some(j)
    } else {
        None
    }
}

/// Where the name that begins at `i` ends.
pub fn section_name(s: &ShareStr, i: usize) -> (j: usize)
    requires
        i <= s@.len(),
    ensures
        j == run_end(s@, i as int, CharClass::Identifier),
        i <= j <= s@.len(),
{
    scan_run(s, i, CharClass::Identifier).0
}

fn is_include(s: &ShareStr, b: usize) -> (r: bool)
    requires
        b <= s@.len(),
    ensures
        r == include_at(s@, b as int),
{
    let n = s.len();
    n - b >= 7 && s.char_at(b) == 'i' && s.char_at(b + 1) == 'n' && s.char_at(b + 2) == 'c'
        && s.char_at(b + 3) == 'l' && s.char_at(b + 4) == 'u' && s.char_at(b + 5) == 'd'
        && s.char_at(b + 6) == 'e'
}

/// The header that begins at `i`, after white space if there is any, and
/// the place after the white space that ends it.
pub fn section_header(s: &ShareStr, i: usize) -> (r: Option<(SectionHeader, usize)>)
    requires
        i <= s@.len(),
    ensures
        match r {
            Some((h, f)) => header_at(s@, i as int) == Some((h@, f as int)) && i < f <= s@.len(),
            None => header_at(s@, i as int) is None,
        },
{
    let n = s.len();
    let (a, _) = scan_run(s, i, CharClass::Multispace);
    if a >= n || s.char_at(a) != '[' {
        return None;
    }
    let b = a + 1;
    let mut body: Option<(SectionHeader, usize)> = None;
    if is_include(s, b) {
        let c = b + 7;
        let (d, _) = scan_run(s, c, CharClass::Multispace);
        if d > c {
            if let Some(e) = string_expr(s, d) {
                body = Some((SectionHeader::File(s.clone_range(d + 1, e)), e + 1));
            }
        }
    }
    if body.is_none() {
        let (e, _) = scan_run(s, b, CharClass::HeaderName);
        if e > b {
            body = Some((SectionHeader::Inline(s.clone_range(b, e)), e));
        }
    }
    assert(match body {
        Some((h, e)) => header_body_at(s@, b as int) == Some((h@, e as int)) && e <= s@.len(),
        None => header_body_at(s@, b as int) is None,
    });
    match body {
        None => None,
        Some((h, e)) => {
            if e < n && s.char_at(e) == ']' {
                match end_spaces(s, e + 1) {
                    None => None,
                    Some(f) => Some((h, f)),
                }
            } else {
                None
            }
        },
    }
}

/// `s` without the white space at its start.
pub fn string_trim_start(s: &ShareStr) -> (r: ShareStr)
    ensures
        r@ == trim_start(s@),
{
    let (skip_len, _) = scan_run(s, 0, CharClass::Whitespace);
    s.clone_range(skip_len, s.len())
}

/// `s` without the white space at its end.
pub fn string_trim_end(s: &ShareStr) -> (r: ShareStr)
    ensures
        r@ == trim_end(s@),
{
    let mut reserve_len = s.len();
    while reserve_len > 0 && is_whitespace(s.char_at(reserve_len - 1))
        invariant
            reserve_len <= s@.len(),
            trim_end_len(s@, s@.len() as int) == trim_end_len(s@, reserve_len as int),
        decreases reserve_len,
    {
        reserve_len -= 1;
    }
    s.clone_range(0, reserve_len)
}

/// The segment at `i`, with the place where it ends; `None` where no
/// segment begins.
pub fn match_seg(origin: &ShareStr, i: usize) -> (r: Result<
    Option<(ExprSeg, usize)>,
    (ParseErrorKind, usize),
>)
    requires
        i <= origin@.len(),
    ensures
        match seg_at(origin@, i as int) {
            SegOutcome::Seg(seg, j) => (r matches Ok(Some((x, k))) && x@ == seg && k == j && i < k
                <= origin@.len()),
            SegOutcome::NoMatch => r matches Ok(None),
            SegOutcome::Fatal(kind, at) => (r matches Err((k, p)) && k == kind && p == at),
        },
{
    let n = origin.len();
    if i < n && origin.char_at(i) == '{' {
        let j = section_name(origin, i + 1);
        if j == i + 1 {
            Err((ParseErrorKind::ExpectedName, j))
        } else if j < n && origin.char_at(j) == '}' {
            Ok(Some((ExprSeg::Use(origin.clone_range(i + 1, j)), j + 1)))
        } else {
            Err((ParseErrorKind::ExpectedClose, j))
        }
    } else {
        let (j, _) = scan_run(origin, i, CharClass::RuleText);
        if j > i {
            Ok(Some((ExprSeg::Text(origin.clone_range(i, j)), j)))
        } else {
            Ok(None)
        }
    }
}

/// Cuts the white space from the start of a rule that starts with text, and
/// from the end of one that ends with text.
fn trim_segs(segs: Vec<ExprSeg>) -> (r: Vec<ExprSeg>)
    ensures
        expr_rule_view(r@) == trim_rule(expr_rule_view(segs@)),
{
    let mut segs = segs;
    let ghost start = expr_rule_view(segs@);
    let n = segs.len();
    if n == 0 {
        return segs;
    }
    let first = match &segs[0] {
        ExprSeg::Text(t) => Some(string_trim_start(t)),
        ExprSeg::Use(_) => None,
    };
    if let Some(t) = first {
        segs[0] = ExprSeg::Text(t);
    }
    let ghost mid = expr_rule_view(segs@);
    assert(mid =~= if start[0] is Text {
        start.update(0, ExprSegModel::Text(trim_start(start[0]->Text_0)))
    } else {
        start
    });
    let last = match &segs[n - 1] {
        ExprSeg::Text(t) => Some(string_trim_end(t)),
        ExprSeg::Use(_) => None,
    };
    if let Some(t) = last {
        segs[n - 1] = ExprSeg::Text(t);
    }
    assert(expr_rule_view(segs@) =~= if mid.last() is Text {
        mid.update(mid.len() - 1, ExprSegModel::Text(trim_end(mid.last()->Text_0)))
    } else {
        mid
    });
    segs
}

/// The rule at `i`, with the place where it ends; `None` where no rule
/// begins.
pub fn parse_rule(origin: &ShareStr, i: usize) -> (r: Result<
    Option<(Vec<ExprSeg>, usize)>,
    (ParseErrorKind, usize),
>)
    requires
        i <= origin@.len(),
    ensures
        match rule_at(origin@, i as int) {
            RuleOutcome::Rule(rule, j) => (r matches Ok(Some((x, k))) && expr_rule_view(x@) == rule
                && k == j && i < k <= origin@.len()),
            RuleOutcome::NoMatch => r matches Ok(None),
            RuleOutcome::Fatal(kind, at) => (r matches Err((k, p)) && k == kind && p == at),
        },
{
    let mut segs: Vec<ExprSeg> = Vec::new();
    let mut j = i;
    loop
        invariant_except_break
            i <= j <= origin@.len(),
            segs_from(origin@, i as int) == match segs_from(origin@, j as int) {
                Ok((rest, k)) => Ok((expr_rule_view(segs@) + rest, k)),
                Err(e) => Err(e),
            },
        ensures
            i <= j <= origin@.len(),
            segs_from(origin@, i as int) == Ok::<
                (Seq<ExprSegModel>, int),
                (ParseErrorKind, int),
            >((expr_rule_view(segs@), j as int)),
        decreases origin@.len() - j,
    {
        let ghost done = expr_rule_view(segs@);
        match match_seg(origin, j) {
            Err(e) => {
                return Err(e);
            },
            Ok(None) => {
                assert(done + Seq::<ExprSegModel>::empty() =~= done);
                break ;
            },
            Ok(Some((seg, k))) => {
                segs.push(seg);
                proof {
                    assert(expr_rule_view(segs@) =~= done.push(seg@));
                    if let Ok((rest, end)) = segs_from(origin@, k as int) {
                        assert(done + (seq![seg@] + rest) =~= done.push(seg@) + rest);
                    }
                }
                j = k;
            },
        }
    }
    if segs.len() == 0 {
        return Ok(None);
    }
    proof {
        lemma_segs_from(origin@, i as int);
    }
    match end_spaces(origin, j) {
        None => Ok(None),
        Some(k) => Ok(Some((trim_segs(segs), k))),
    }
}

/// What a source file holds at one place: the path of a file to be read
/// there, or a section.
#[derive(Debug)]
pub enum FileItem {
    Include(ShareStr),
    Section(ExprSection),
}

impl View for FileItem {
    type V = ItemModel;

    open spec fn view(&self) -> ItemModel {
        match self {
            FileItem::Include(path) => ItemModel::Include(path@),
            FileItem::Section(section) => ItemModel::Section {
                name: section.info.name@,
                rules: expr_rules_view(section.rules@),
            },
        }
    }
}

/// The model of a list of items of a file.
pub open spec fn items_view(items: Seq<FileItem>) -> Seq<ItemModel> {
    Seq::new(items.len(), |i: int| items[i]@)
}

/// Every section among `items` is recorded as defined in `file`.
pub open spec fn items_are_from(items: Seq<FileItem>, file: Seq<char>) -> bool {
    forall|i: int|
        0 <= i < items.len() ==> (#[trigger] items[i] matches FileItem::Section(s) ==> s.info.file@
            == file)
}

/// Model of a file that is being read: its name, and what it holds from the
/// place reached on.
pub struct FrameModel {
    pub file: Seq<char>,
    pub items: Seq<ItemModel>,
}

/// Model of the reading of a grammar: the sections met so far, and the
/// files that are open, the one being read last.
pub struct ParserModel {
    pub sections: Seq<ExprSectionModel>,
    pub pending: Seq<FrameModel>,
}

/// How many items and files are left to go through.
pub open spec fn work_left(pending: Seq<FrameModel>) -> nat
    decreases pending.len(),
{
    if pending.len() == 0 {
        0
    } else {
        work_left(pending.drop_last()) + pending.last().items.len() + 1
    }
}

/// Reading on until a file must be opened: the sections met on the way join
/// those met before, a file that is at its end is closed, and an `include`
/// stops the reading with the name of the file that holds it and the path
/// it gives.  Without an `include` left, the reading ends with no file open.
pub open spec fn read_on(m: ParserModel) -> (ParserModel, Option<(Seq<char>, Seq<char>)>)
    decreases work_left(m.pending),
{
    if m.pending.len() == 0 {
        (m, None)
    } else {
        let top = m.pending.last();
        let below = m.pending.drop_last();
        if top.items.len() == 0 {
            read_on(ParserModel { sections: m.sections, pending: below })
        } else {
            let rest = FrameModel { file: top.file, items: top.items.drop_first() };
            proof {
                assert(below.push(rest).drop_last() =~= below);
            }
            match top.items[0] {
                ItemModel::Include(path) => (
                    ParserModel { sections: m.sections, pending: below.push(rest) },
                    Some((top.file, path)),
                ),
                ItemModel::Section { name, rules } => read_on(
                    ParserModel {
                        sections: m.sections.push(ExprSectionModel { rules, name, file: top.file }),
                        pending: below.push(rest),
                    },
                ),
            }
        }
    }
}

/// A file that is being read; what is left of it is kept last item first.
struct Frame {
    file: ShareStr,
    items: Vec<FileItem>,
}

/// Reader of a grammar that is spread over files.
///
/// The reader is given the text of the entry file, then asked, again and
/// again, for the next file it needs, and given the text of that file, until
/// it needs none.  The sections then stand in `sections`, in the order of
/// the source, the sections of a file in the place of its `include`.
pub struct SyntaxParser {
    pub sections: Vec<ExprSection>,
    pending: Vec<Frame>,
}

/// A file that the reader needs: the `path` as written in the `include`,
/// and the name of the file that holds the `include`.
#[derive(Debug)]
pub struct IncludeRequest {
    pub from: ShareStr,
    pub path: ShareStr,
}

impl SyntaxParser {
    /// The files that are not read to their end, the innermost last, each
    /// with its items still to come in the order in which they come.
    pub closed spec fn pending_model(&self) -> Seq<FrameModel> {
        Seq::new(
            self.pending@.len(),
            |i: int|
                FrameModel {
                    file: self.pending@[i].file@,
                    items: items_view(self.pending@[i].items@).reverse(),
                },
        )
    }

    /// Every section still to come is recorded as defined in the file that
    /// holds it.
    pub closed spec fn well_formed(&self) -> bool {
        forall|i: int|
            0 <= i < self.pending@.len() ==> items_are_from(
                (#[trigger] self.pending@[i]).items@,
                self.pending@[i].file@,
            )
    }

    /// The rules that follow the header of a section from `i` on, and where
    /// they end; for the header of an `include`, nothing.
    pub fn parse_section(origin: &ShareStr, i: usize, header: &SectionHeader) -> (r: Result<
        (Option<Vec<Vec<ExprSeg>>>, usize),
        (ParseErrorKind, usize),
    >)
        requires
            i <= origin@.len(),
        ensures
            match header@ {
                HeaderModel::File(_) => r matches Ok((None, k)) && k == i,
                HeaderModel::Inline(_) => match rules_from(origin@, i as int) {
                    Ok((rules, end)) => (r matches Ok((Some(v), k)) && expr_rules_view(v@) == rules
                        && k == end && i <= k <= origin@.len()),
                    Err((kind, at)) => (r matches Err((k, p)) && k == kind && p == at),
                },
            },
    {
        match header {
            SectionHeader::File(_) => Ok((None, i)),
            SectionHeader::Inline(_) => {
                let mut rules: Vec<Vec<ExprSeg>> = Vec::new();
                let mut j = i;
                loop
                    invariant_except_break
                        i <= j <= origin@.len(),
                        header@ is Inline,
                        rules_from(origin@, i as int) == match rules_from(origin@, j as int) {
                            Ok((rest, k)) => Ok((expr_rules_view(rules@) + rest, k)),
                            Err(e) => Err(e),
                        },
                    ensures
                        i <= j <= origin@.len(),
                        rules_from(origin@, i as int) == Ok::<
                            (Seq<Seq<ExprSegModel>>, int),
                            (ParseErrorKind, int),
                        >((expr_rules_view(rules@), j as int)),
                    decreases origin@.len() - j,
                {
                    let ghost done = expr_rules_view(rules@);
                    match parse_rule(origin, j) {
                        Err(e) => {
                            return Err(e);
                        },
                        Ok(None) => {
                            assert(done + Seq::<Seq<ExprSegModel>>::empty() =~= done);
                            break ;
                        },
                        Ok(Some((rule, k))) => {
                            let ghost rule_model = expr_rule_view(rule@);
                            rules.push(rule);
                            proof {
                                assert(expr_rules_view(rules@) =~= done.push(rule_model));
                                if let Ok((rest, end)) = rules_from(origin@, k as int) {
                                    assert(done + (seq![rule_model] + rest) =~= done.push(
                                        rule_model,
                                    ) + rest);
                                }
                            }
                            j = k;
                        },
                    }
                }
                Ok((Some(rules), j))
            },
        }
    }

    /// What the file `file` with the text `content` holds: its headers in
    /// order, each section with its rules.
    pub fn parse_file(file: &ShareStr, content: &str) -> (r: Result<Vec<FileItem>, ParseError>)
        ensures
            match parse_source(content@) {
                Ok(items) => (r matches Ok(v) && items_view(v@) == items && items_are_from(
                    v@,
                    file@,
                )),
                Err((kind, at)) => (r matches Err(e) && e.kind == kind && e.offset == at && e.file@
                    == file@),
            },
    {
        let raw = ShareStr::new(content);
        let size = content.as_bytes().len();
        proof {
            lemma_byte_offset_is_encoded_length(content@, content@.len() as int);
            assert(content@.take(content@.len() as int) =~= content@);
        }
        let clean_code = match remove_comments(&raw) {
            Ok(clean) => ShareStr::from_chars(clean),
            Err(at) => {
                return Err(error_at(ParseErrorKind::BrokenString, file, &raw, at, size));
            },
        };
        let ghost s = clean_code@;
        let mut items: Vec<FileItem> = Vec::new();
        let mut i: usize = 0;
        loop
            invariant_except_break
                i <= s.len(),
                s == clean_code@,
                raw@ == content@,
                size == byte_offset(raw@, raw@.len() as int),
                strip_comments(content@, 0) == Ok::<Seq<char>, int>(s),
                items_are_from(items@, file@),
                items_from(s, 0) == match items_from(s, i as int) {
                    Ok((rest, end)) => Ok((items_view(items@) + rest, end)),
                    Err(e) => Err(e),
                },
            ensures
                i <= s.len(),
                s == clean_code@,
                raw@ == content@,
                size == byte_offset(raw@, raw@.len() as int),
                items_are_from(items@, file@),
                items_from(s, 0) == Ok::<(Seq<ItemModel>, int), (ParseErrorKind, int)>(
                    (items_view(items@), i as int),
                ),
            decreases s.len() - i,
        {
            let ghost done = items_view(items@);
            let (header, j) = match section_header(&clean_code, i) {
                None => {
                    assert(done + Seq::<ItemModel>::empty() =~= done);
                    break ;
                },
                Some(found) => found,
            };
            let (item, k) = match Self::parse_section(&clean_code, j, &header) {
                Err((kind, at)) => {
                    return Err(error_at(kind, file, &raw, place_in_source(&raw, at), size));
                },
                Ok((body, k)) => match header {
                    SectionHeader::File(path) => (FileItem::Include(path), k),
                    SectionHeader::Inline(name) => {
                        let rules = match body {
                            Some(rules) => rules,
                            None => Vec::new(),
                        };
                        (
                            FileItem::Section(
                                ExprSection { info: SecInfo { name, file: file.clone() }, rules },
                            ),
                            k,
                        )
                    },
                },
            };
            items.push(item);
            proof {
                assert(items_view(items@) =~= done.push(item@));
                if let Ok((rest, end)) = items_from(s, k as int) {
                    assert(done + (seq![item@] + rest) =~= done.push(item@) + rest);
                }
            }
            i = k;
        }
        if i < clean_code.len() {
            let place = place_in_source(&raw, i);
            return Err(error_at(ParseErrorKind::UnexpectedText, file, &raw, place, size));
        }
        Ok(items)
    }

    /// A reader that has taken in the entry file of a grammar.
    pub fn parse(file: ShareStr, content: &str) -> (r: Result<Self, ParseError>)
        ensures
            match parse_source(content@) {
                Ok(items) => (r matches Ok(p) && p.well_formed() && p@ == ParserModel {
                    sections: Seq::empty(),
                    pending: seq![FrameModel { file: file@, items }],
                }),
                Err((kind, at)) => (r matches Err(e) && e.kind == kind && e.offset == at && e.file@
                    == file@),
            },
    {
        let mut this = SyntaxParser { sections: Vec::new(), pending: Vec::new() };
        assert(this@.sections =~= Seq::empty());
        assert(this@.pending =~= Seq::empty());
        match this.read_file(file, content) {
            Ok(()) => {
                assert(this@.pending =~= seq![
                    FrameModel { file: file@, items: parse_source(content@)->Ok_0 },
                ]);
                Ok(this)
            },
            Err(e) => Err(e),
        }
    }

    /// Takes in the text of a file that the reader asked for: what the file
    /// holds is read next, before the rest of the file that includes it.
    pub fn read_file(&mut self, file: ShareStr, content: &str) -> (r: Result<(), ParseError>)
        requires
            old(self).well_formed(),
        ensures
            final(self).well_formed(),
            match parse_source(content@) {
                Ok(items) => (r is Ok && final(self)@ == ParserModel {
                    sections: old(self)@.sections,
                    pending: old(self)@.pending.push(FrameModel { file: file@, items }),
                }),
                Err((kind, at)) => (r matches Err(e) && e.kind == kind && e.offset == at && e.file@
                    == file@ && final(self)@ == old(self)@),
            },
    {
        let mut items = match Self::parse_file(&file, content) {
            Ok(items) => items,
            Err(e) => {
                return Err(e);
            },
        };
        let ghost forward = items@;
        let mut reversed: Vec<FileItem> = Vec::new();
        while items.len() > 0
            invariant
                items@ == forward.take(items@.len() as int),
                reversed@.len() + items@.len() == forward.len(),
                forall|k: int|
                    0 <= k < reversed@.len() ==> #[trigger] reversed@[k] == forward[forward.len()
                        - 1 - k],
            decreases items@.len(),
        {
            match items.pop() {
                Some(item) => {
                    reversed.push(item);
                },
                None => {},
            }
            assert(items@ =~= forward.take(items@.len() as int));
        }
        assert(items_view(reversed@).reverse() =~= items_view(forward));
        let ghost before = self.pending_model();
        self.pending.push(Frame { file, items: reversed });
        assert(self.pending_model() =~= before.push(
            FrameModel { file: file@, items: items_view(forward) },
        ));
        Ok(())
    }

    /// Reads on until a file must be opened, and asks for that file; `None`
    /// when every file is read to its end.
    pub fn next_include(&mut self) -> (r: Option<IncludeRequest>)
        requires
            old(self).well_formed(),
        ensures
            final(self).well_formed(),
            final(self)@ == read_on(old(self)@).0,
            match read_on(old(self)@).1 {
                None => r is None,
                Some((from, path)) => (r matches Some(req) && req.from@ == from && req.path@
                    == path),
            },
            r is None ==> final(self)@.pending.len() == 0,
    {
        let ghost goal = read_on(self@);
        loop
            invariant
                self.well_formed(),
                read_on(self@) == goal,
                goal == read_on(old(self)@),
            decreases work_left(self@.pending),
        {
            let ghost m = self@;
            let ghost below = m.pending.drop_last();
            let mut frame = match self.pending.pop() {
                None => {
                    return None;
                },
                Some(frame) => frame,
            };
            assert(self.pending_model() =~= below);
            let ghost top = m.pending.last();
            let ghost left = frame.items@;
            match frame.items.pop() {
                None => {
                    assert(top.items =~= Seq::empty());
                },
                Some(item) => {
                    let ghost rest = FrameModel { file: top.file, items: top.items.drop_first() };
                    assert(items_view(frame.items@).reverse() =~= top.items.drop_first());
                    assert(top.items[0] == item@);
                    assert(left[left.len() - 1] == item);
                    assert(below.push(rest).drop_last() =~= below);
                    let from = frame.file.clone();
                    self.pending.push(frame);
                    assert(self.pending_model() =~= below.push(rest));
                    match item {
                        FileItem::Include(path) => {
                            return Some(IncludeRequest { from, path });
                        },
                        FileItem::Section(section) => {
                            let ghost sections = self.sections@;
                            self.sections.push(section);
                            assert(expr_sections_view(self.sections@) =~= expr_sections_view(
                                sections,
                            ).push(section@));
                        },
                    }
                },
            }
        }
    }
}

impl View for SyntaxParser {
    type V = ParserModel;

    closed spec fn view(&self) -> ParserModel {
        ParserModel { sections: expr_sections_view(self.sections@), pending: self.pending_model() }
    }
}

/// Begins to read a grammar with the text of its entry file.
pub fn parse(file: ShareStr, content: &str) -> (r: Result<SyntaxParser, ParseError>)
    ensures
        match parse_source(content@) {
            Ok(items) => (r matches Ok(p) && p.well_formed() && p@ == ParserModel {
                sections: Seq::empty(),
                pending: seq![FrameModel { file: file@, items }],
            }),
            Err((kind, at)) => (r matches Err(e) && e.kind == kind && e.offset == at && e.file@
                == file@),
        },
{
    SyntaxParser::parse(file, content)
}

} // verus!
