//! The style-aware parser: a strict recursive-descent grammar for the
//! object/string dialect, with a side channel of style diagnostics. A style
//! violation never aborts the parse: the offending region is recorded and a
//! permissive consumer advances past it. Only structural faults (a missing
//! quote, brace, colon or value) end the parse.

use vstd::prelude::*;

verus! {

use core::cmp::Ordering;
use vstd::string::StringExecFns;
use crate::parser::model::{view_entries, view_value, JsonObject, JsonString, JsonStyle, JsonType, LineEnding, Pos, SortAlgorithm, SortOrder, VNode};

/// The style rules a diagnostic can cite.
#[derive(Clone, Copy, PartialEq, Eq, Structural, Debug)]
pub enum StyleIssue {
    MaybeSpace,
    PostColon,
    PostColonTooMuch,
    Crlf,
    Lf,
    NoBreak,
    AnyBreak,
    CrButNotLf,
    NotEnoughIndentation,
    TooMuchIndentation,
    Sorting,
}

/// A recoverable style diagnostic: where it fired and which rule it cites.
#[derive(Clone, Copy, PartialEq, Eq, Structural, Debug)]
pub struct Diag {
    pub pos: Pos,
    pub issue: StyleIssue,
}

/// A structural fault that stops the parse.
#[derive(Clone, Copy, PartialEq, Eq, Structural, Debug)]
pub struct FatalError {
    pub pos: Pos,
}

/// A cursor into the character vector, carrying its 1-based line and
/// column.
#[derive(Clone, Copy, PartialEq, Eq, Structural, Debug)]
pub struct Cur {
    pub i: usize,
    pub line: usize,
    pub col: usize,
}

/// A cursor is well formed when it sits inside the text. The line and
/// column it carries serve human-readable messages only: a position is an
/// opaque handle, and two positions are the same position exactly when
/// their offsets agree.
pub open spec fn cur_wf(t: Seq<char>, c: Cur) -> bool {
    c.i <= t.len()
}

/// The cursor at the start of a text.
pub fn cur_start() -> (c: Cur)
    ensures
        c.i == 0,
        c.line == 1,
        c.col == 1,
        forall|t: Seq<char>| cur_wf(t, c),
{
    Cur { i: 0, line: 1, col: 1 }
}

/// Step one character forward, counting lines and columns (the counters
/// saturate rather than wrap on absurdly long inputs).
pub(crate) fn advance(t: &Vec<char>, c: Cur) -> (r: Cur)
    requires
        cur_wf(t@, c),
        c.i < t@.len(),
    ensures
        cur_wf(t@, r),
        r.i == c.i + 1,
{
    proof {
        assert(t.len() == t@.len());
    }
    if t[c.i] == '\n' {
        let line = if c.line < usize::MAX {
            c.line + 1
        } else {
            c.line
        };
        Cur { i: c.i + 1, line, col: 1 }
    } else {
        let col = if c.col < usize::MAX {
            c.col + 1
        } else {
            c.col
        };
        Cur { i: c.i + 1, line: c.line, col }
    }
}

/// The position record of a cursor.
pub fn pos_of(c: Cur) -> (p: Pos)
    ensures
        p == (Pos { line: c.line, col: c.col, offset: c.i }),
{
    Pos { line: c.line, col: c.col, offset: c.i }
}

/// Whether `pat` occurs in `t` starting at `i`.
pub open spec fn matches_at(t: Seq<char>, i: int, pat: Seq<char>) -> bool {
    0 <= i && i + pat.len() <= t.len() && t.subrange(i, i + pat.len()) == pat
}

/// Match a literal: on success the cursor stands after it, on failure the
/// cursor is unchanged and `None` comes back.
fn match_lit(t: &Vec<char>, c: Cur, pat: &Vec<char>) -> (r: Option<Cur>)
    requires
        cur_wf(t@, c),
    ensures
        matches_at(t@, c.i as int, pat@) <==> r is Some,
        r is Some ==> {
            let c2 = r->0;
            cur_wf(t@, c2) && c2.i == c.i + pat@.len()
        },
{
    let mut k: usize = 0;
    let mut cc = c;
    while k < pat.len()
        invariant
            cur_wf(t@, cc),
            k <= pat@.len(),
            cc.i == c.i + k,
            c.i + k <= t@.len(),
            forall|m: int| 0 <= m < k ==> t@[c.i + m] == pat@[m],
        decreases pat@.len() - k,
    {
        if cc.i >= t.len() || t[cc.i] != pat[k] {
            proof {
                if matches_at(t@, c.i as int, pat@) {
                    assert(t@.subrange(c.i as int, c.i + pat@.len())[k as int] == pat@[k as int]);
                }
            }
            return None;
        }
        cc = advance(t, cc);
        k += 1;
    }
    proof {
        assert(t@.subrange(c.i as int, c.i + pat@.len()) =~= pat@);
    }
    Some(cc)
}

/// The first index at or after `i` that holds neither a space nor a tab.
pub open spec fn skip_space_tab(t: Seq<char>, i: int) -> int
    decreases t.len() - i,
{
    if i < 0 || i >= t.len() {
        i
    } else if t[i] == ' ' || t[i] == '\t' {
        skip_space_tab(t, i + 1)
    } else {
        i
    }
}

/// The first index at or after `i` that holds no whitespace character.
pub open spec fn skip_multispace(t: Seq<char>, i: int) -> int
    decreases t.len() - i,
{
    if i < 0 || i >= t.len() {
        i
    } else if t[i] == ' ' || t[i] == '\t' || t[i] == '\r' || t[i] == '\n' {
        skip_multispace(t, i + 1)
    } else {
        i
    }
}

proof fn lemma_skip_bounds(t: Seq<char>, i: int)
    requires
        0 <= i <= t.len(),
    ensures
        i <= skip_space_tab(t, i) <= t.len(),
        i <= skip_multispace(t, i) <= t.len(),
    decreases t.len() - i,
{
    if i < t.len() {
        lemma_skip_bounds(t, i + 1);
    }
}

/// Consume a run of spaces and tabs.
fn eat_space_tab(t: &Vec<char>, c: Cur) -> (r: Cur)
    requires
        cur_wf(t@, c),
    ensures
        cur_wf(t@, r),
        r.i == skip_space_tab(t@, c.i as int),
        r.i >= c.i,
{
    let mut cc = c;
    while cc.i < t.len() && (t[cc.i] == ' ' || t[cc.i] == '\t')
        invariant
            cur_wf(t@, cc),
            cc.i >= c.i,
            skip_space_tab(t@, c.i as int) == skip_space_tab(t@, cc.i as int),
        decreases t@.len() - cc.i,
    {
        cc = advance(t, cc);
    }
    cc
}

/// Consume a run of whitespace of any kind.
pub(crate) fn eat_multispace(t: &Vec<char>, c: Cur) -> (r: Cur)
    requires
        cur_wf(t@, c),
    ensures
        cur_wf(t@, r),
        r.i == skip_multispace(t@, c.i as int),
        r.i >= c.i,
{
    let mut cc = c;
    while cc.i < t.len() && (t[cc.i] == ' ' || t[cc.i] == '\t' || t[cc.i] == '\r' || t[cc.i]
        == '\n')
        invariant
            cur_wf(t@, cc),
            cc.i >= c.i,
            skip_multispace(t@, c.i as int) == skip_multispace(t@, cc.i as int),
        decreases t@.len() - cc.i,
    {
        cc = advance(t, cc);
    }
    cc
}

/// Where the string that begins (after its opening quote) at `j` ends: the
/// index of the closing quote, if any. A backslash makes the next
/// character part of the contents, whatever it is.
pub open spec fn scan_string(t: Seq<char>, j: int) -> Option<int>
    decreases t.len() - j,
{
    if j < 0 || j >= t.len() {
        None
    } else if t[j] == '"' {
        Some(j)
    } else if t[j] == '\\' {
        if j + 2 <= t.len() {
            scan_string(t, j + 2)
        } else {
            None
        }
    } else {
        scan_string(t, j + 1)
    }
}

proof fn lemma_scan_string_bounds(t: Seq<char>, j: int)
    ensures
        scan_string(t, j) is Some ==> j <= scan_string(t, j)->0 < t.len(),
    decreases t.len() - j,
{
    if j < 0 || j >= t.len() {
    } else if t[j] == '"' {
    } else if t[j] == '\\' {
        if j + 2 <= t.len() {
            lemma_scan_string_bounds(t, j + 2);
        }
    } else {
        lemma_scan_string_bounds(t, j + 1);
    }
}

proof fn lemma_scan_plain(t: Seq<char>, j: int, e: int)
    requires
        0 <= j <= e < t.len(),
        forall|k: int| j <= k < e ==> t[k] != '"' && t[k] != '\\',
        t[e] == '"',
    ensures
        scan_string(t, j) == Some(e),
    decreases e - j,
{
    if j < e {
        lemma_scan_plain(t, j + 1, e);
    }
}

/// Law (the string-token core of the parse/generate round trip): the
/// canonical writing of a string value that holds neither a quote nor a
/// backslash, followed by anything, scans back to exactly that value.
pub proof fn lemma_string_token_round_trip(v: Seq<char>, rest: Seq<char>)
    requires
        forall|i: int| 0 <= i < v.len() ==> v[i] != '"' && v[i] != '\\',
    ensures
        ({
            let t = "\""@ + v + "\""@ + rest;
            &&& scan_string(t, 1) == Some(1 + v.len() as int)
            &&& t.subrange(1, 1 + v.len() as int) == v
        }),
{
    reveal_strlit("\"");
    let t = "\""@ + v + "\""@ + rest;
    assert(t[1 + v.len() as int] == '"');
    assert(forall|k: int| 1 <= k < 1 + v.len() ==> t[k] == v[k - 1]);
    lemma_scan_plain(t, 1, 1 + v.len() as int);
    assert(t.subrange(1, 1 + v.len() as int) =~= v);
}

/// `new` is `old` with one diagnostic appended, citing `issue` at
/// character offset `off`.
pub open spec fn pushed_diag(old: Seq<Diag>, new: Seq<Diag>, off: int, issue: StyleIssue) -> bool {
    &&& new.len() == old.len() + 1
    &&& new.subrange(0, old.len() as int) =~= old
    &&& new.last().issue == issue
    &&& new.last().pos.offset == off
}

/// Parse one quoted string: an opening quote, contents in which a
/// backslash always escapes the next character, and a closing quote. The
/// contents are kept raw, exactly as written. Succeeds exactly when the
/// cursor stands on a quote whose string is terminated.
pub fn parse_string(t: &Vec<char>, c: Cur) -> (r: Result<(Cur, JsonString), FatalError>)
    requires
        cur_wf(t@, c),
    ensures
        match r {
            Ok((c2, js)) => {
                &&& cur_wf(t@, c2)
                &&& c.i < t@.len() && t@[c.i as int] == '"'
                &&& match scan_string(t@, c.i + 1) {
                    Some(e) => {
                        &&& js.value@ == t@.subrange(c.i + 1, e)
                        &&& js.start.offset == c.i + 1
                        &&& js.end.offset == e + 1
                        &&& c2.i == e + 1
                        &&& c2.i >= c.i + 2
                    },
                    None => false,
                }
            },
            Err(_) => !(c.i < t@.len() && t@[c.i as int] == '"' && scan_string(t@, c.i + 1)
                is Some),
        },
{
    if c.i >= t.len() || t[c.i] != '"' {
        return Err(FatalError { pos: pos_of(c) });
    }
    let mut cc = advance(t, c);
    let start = pos_of(cc);
    let ghost j0: int = cc.i as int;
    while cc.i < t.len() && t[cc.i] != '"'
        invariant
            cur_wf(t@, cc),
            cc.i >= j0,
            scan_string(t@, j0) == scan_string(t@, cc.i as int),
        decreases t@.len() - cc.i,
    {
        if t[cc.i] == '\\' {
            cc = advance(t, cc);
            if cc.i < t.len() {
                cc = advance(t, cc);
            }
        } else {
            cc = advance(t, cc);
        }
    }
    if cc.i >= t.len() {
        return Err(FatalError { pos: pos_of(cc) });
    }
    proof {
        lemma_scan_string_bounds(t@, c.i as int + 1);
    }
    let contents = crate::util::subchars(t, start.offset, cc.i);
    let value = crate::util::chars_to_string(&contents);
    let c2 = advance(t, cc);
    let end = pos_of(c2);
    Ok((c2, JsonString { value, start, end }))
}

/// Where the canonical form of the required line break ends, if the text
/// at `i` satisfies the rule. The rule that ignores line breaks accepts
/// an optional carriage return and an optional line feed silently, so it
/// never fails.
pub open spec fn nl_ok_end(le: LineEnding, t: Seq<char>, i: int) -> Option<int> {
    match le {
        LineEnding::CRLF => if i + 2 <= t.len() && t[i] == '\r' && t[i + 1] == '\n' {
            Some(i + 2)
        } else {
            None
        },
        LineEnding::LF => if i < t.len() && t[i] == '\n' {
            Some(i + 1)
        } else {
            None
        },
        LineEnding::NONE => if i < t.len() && t[i] != '\r' && t[i] != '\n' {
            Some(i)
        } else {
            None
        },
        LineEnding::ANY => {
            let j = if i < t.len() && t[i] == '\r' {
                i + 1
            } else {
                i
            };
            if j < t.len() && t[j] == '\n' {
                Some(j + 1)
            } else {
                None
            }
        },
        LineEnding::IGNORE => if i < t.len() && t[i] == '\r' {
            if i + 1 < t.len() && t[i + 1] == '\n' {
                Some(i + 2)
            } else {
                Some(i + 1)
            }
        } else if i < t.len() && t[i] == '\n' {
            Some(i + 1)
        } else {
            Some(i)
        },
    }
}

/// The issue a failed line-break check cites.
pub open spec fn nl_issue(le: LineEnding) -> StyleIssue {
    match le {
        LineEnding::CRLF => StyleIssue::Crlf,
        LineEnding::LF => StyleIssue::Lf,
        LineEnding::NONE => StyleIssue::NoBreak,
        LineEnding::ANY => StyleIssue::AnyBreak,
        LineEnding::IGNORE => StyleIssue::CrButNotLf,
    }
}

/// Where a failed line-break check points: after an optional `\r` for the
/// permissive rules, at the cursor for the strict ones.
pub open spec fn nl_fail_off(le: LineEnding, t: Seq<char>, i: int) -> int {
    match le {
        LineEnding::ANY => if i < t.len() && t[i] == '\r' {
            i + 1
        } else {
            i
        },
        LineEnding::IGNORE => i + 1,
        _ => i,
    }
}

/// The permissive consumer that follows a failed line-break check: an
/// optional `\r`, then a `\n` that is mandatory after `\r` and optional
/// otherwise. `None` is a structural fault.
pub open spec fn nl_recover(t: Seq<char>, i: int) -> Option<int> {
    if i < t.len() && t[i] == '\r' {
        if i + 1 < t.len() && t[i + 1] == '\n' {
            Some(i + 2)
        } else {
            None
        }
    } else if i < t.len() && t[i] == '\n' {
        Some(i + 1)
    } else {
        Some(i)
    }
}

/// How far `n` repetitions of the indentation unit `u` reach from `i`:
/// the index after them, or the start of the repetition that failed.
pub open spec fn rep_match(t: Seq<char>, i: int, u: Seq<char>, n: nat) -> Result<int, int>
    decreases n,
{
    if n == 0 {
        Ok(i)
    } else if matches_at(t, i, u) {
        rep_match(t, i + u.len(), u, (n - 1) as nat)
    } else {
        Err(i)
    }
}

proof fn lemma_rep_match_bounds(t: Seq<char>, i: int, u: Seq<char>, n: nat)
    requires
        0 <= i <= t.len(),
    ensures
        match rep_match(t, i, u, n) {
            Ok(e) => i <= e <= t.len(),
            Err(f) => i <= f <= t.len(),
        },
    decreases n,
{
    if n > 0 && matches_at(t, i, u) {
        lemma_rep_match_bounds(t, i + u.len(), u, (n - 1) as nat);
    }
}

/// The style-aware parser; it carries the rules in force.
pub struct Parser {
    pub style: JsonStyle,
}

impl Parser {
    /// Make a parser for the given style.
    pub fn new(style: JsonStyle) -> (p: Parser)
        ensures
            p.style == style,
    {
        Parser { style }
    }

    /// The no-whitespace check before a colon. Under a full style, any
    /// space or tab here is one diagnostic, and the run is consumed; under
    /// no style, any whitespace is silently consumed.
    fn parse_maybe_space(&self, t: &Vec<char>, c: Cur, diags: &mut Vec<Diag>) -> (r: Cur)
        requires
            cur_wf(t@, c),
        ensures
            cur_wf(t@, r),
            r.i >= c.i,
            match self.style {
                JsonStyle::STYLED { .. } => {
                    if c.i < t@.len() && (t@[c.i as int] == ' ' || t@[c.i as int] == '\t') {
                        &&& pushed_diag(old(diags)@, final(diags)@, c.i as int, StyleIssue::MaybeSpace)
                        &&& r.i == skip_space_tab(t@, c.i as int)
                    } else {
                        final(diags)@ == old(diags)@ && r == c
                    }
                },
                JsonStyle::IGNORE => final(diags)@ == old(diags)@ && r.i == skip_multispace(
                    t@,
                    c.i as int,
                ),
            },
            ({
                let (i2, ds) = spec_maybe_space(self.style, t@, c.i as int);
                r.i == i2 && diags_view(final(diags)@) == diags_view(old(diags)@) + ds
            }),
    {
        let r = match &self.style {
            JsonStyle::STYLED { .. } => {
                if c.i < t.len() && (t[c.i] == ' ' || t[c.i] == '\t') {
                    diags.push(Diag { pos: pos_of(c), issue: StyleIssue::MaybeSpace });
                    assert(diags@.subrange(0, old(diags)@.len() as int) =~= old(diags)@);
                    proof {
                        lemma_diags_view_extend(
                            old(diags)@,
                            diags@,
                            c.i as int,
                            StyleIssue::MaybeSpace,
                        );
                    }
                    eat_space_tab(t, c)
                } else {
                    c
                }
            },
            JsonStyle::IGNORE => eat_multispace(t, c),
        };
        proof {
            assert(diags_view(diags@) =~= diags_view(old(diags)@) + spec_maybe_space(
                self.style,
                t@,
                c.i as int,
            ).1);
        }
        r
    }

    /// The after-colon check. With a configured post-colon text, exactly
    /// that text must stand here, followed at once by the value; a wrong
    /// text is one diagnostic, a right text followed by more whitespace is
    /// another. Recovery and the unconfigured cases consume any
    /// whitespace.
    fn parse_post_colon(&self, t: &Vec<char>, c: Cur, diags: &mut Vec<Diag>) -> (r: Cur)
        requires
            cur_wf(t@, c),
        ensures
            cur_wf(t@, r),
            r.i >= c.i,
            match &self.style {
                JsonStyle::STYLED { post_colon: Some(p), .. } => {
                    let pv = p@;
                    if matches_at(t@, c.i as int, pv) {
                        if c.i + pv.len() < t@.len() && (t@[c.i + pv.len()] == '{' || t@[c.i
                            + pv.len()] == '"') {
                            final(diags)@ == old(diags)@ && r.i == c.i + pv.len()
                        } else {
                            &&& pushed_diag(
                                old(diags)@,
                                final(diags)@,
                                c.i + pv.len(),
                                StyleIssue::PostColonTooMuch,
                            )
                            &&& r.i == skip_multispace(t@, c.i as int)
                        }
                    } else {
                        &&& pushed_diag(old(diags)@, final(diags)@, c.i as int, StyleIssue::PostColon)
                        &&& r.i == skip_multispace(t@, c.i as int)
                    }
                },
                _ => final(diags)@ == old(diags)@ && r.i == skip_multispace(t@, c.i as int),
            },
            ({
                let (i2, ds) = spec_post_colon(self.style, t@, c.i as int);
                r.i == i2 && diags_view(final(diags)@) == diags_view(old(diags)@) + ds
            }),
    {
        let r = match &self.style {
            JsonStyle::STYLED { post_colon: Some(p), .. } => {
                let pv = crate::util::str_to_chars(p.as_str());
                match match_lit(t, c, &pv) {
                    Some(c2) => {
                        if c2.i < t.len() && (t[c2.i] == '{' || t[c2.i] == '"') {
                            c2
                        } else {
                            diags.push(
                                Diag { pos: pos_of(c2), issue: StyleIssue::PostColonTooMuch },
                            );
                            assert(diags@.subrange(0, old(diags)@.len() as int) =~= old(diags)@);
                            proof {
                                lemma_diags_view_extend(
                                    old(diags)@,
                                    diags@,
                                    c.i + p@.len(),
                                    StyleIssue::PostColonTooMuch,
                                );
                            }
                            eat_multispace(t, c)
                        }
                    },
                    None => {
                        diags.push(Diag { pos: pos_of(c), issue: StyleIssue::PostColon });
                        assert(diags@.subrange(0, old(diags)@.len() as int) =~= old(diags)@);
                        proof {
                            lemma_diags_view_extend(
                                old(diags)@,
                                diags@,
                                c.i as int,
                                StyleIssue::PostColon,
                            );
                        }
                        eat_multispace(t, c)
                    },
                }
            },
            _ => eat_multispace(t, c),
        };
        proof {
            assert(diags_view(diags@) =~= diags_view(old(diags)@) + spec_post_colon(
                self.style,
                t@,
                c.i as int,
            ).1);
        }
        r
    }

    /// The line-break check after `{` and after each entry, as the
    /// configured rule asks; on failure, one diagnostic and a permissive
    /// consumer, which itself faults on a `\r` without `\n`.
    fn parse_new_line(&self, t: &Vec<char>, c: Cur, diags: &mut Vec<Diag>) -> (r: Result<
        Cur,
        FatalError,
    >)
        requires
            cur_wf(t@, c),
        ensures
            match self.style {
                JsonStyle::STYLED { line_endings: le, .. } => {
                    match nl_ok_end(le, t@, c.i as int) {
                        Some(e) => r matches Ok(c2) && cur_wf(t@, c2) && c2.i == e && c2.i >= c.i
                            && final(diags)@ == old(diags)@,
                        None => {
                            &&& pushed_diag(
                                old(diags)@,
                                final(diags)@,
                                nl_fail_off(le, t@, c.i as int),
                                nl_issue(le),
                            )
                            &&& match nl_recover(t@, c.i as int) {
                                Some(e) => r matches Ok(c2) && cur_wf(t@, c2) && c2.i == e && c2.i
                                    >= c.i,
                                None => r is Err,
                            }
                        },
                    }
                },
                JsonStyle::IGNORE => r matches Ok(c2) && cur_wf(t@, c2) && c2.i == skip_multispace(
                    t@,
                    c.i as int,
                ) && c2.i >= c.i && final(diags)@ == old(diags)@,
            },
            ({
                let (rn, ds) = spec_new_line(self.style, t@, c.i as int);
                &&& diags_view(final(diags)@) == diags_view(old(diags)@) + ds
                &&& match r {
                    Ok(c2) => rn == Some(c2.i as int),
                    Err(_) => rn is None,
                }
            }),
    {
        let r = match &self.style {
            JsonStyle::STYLED { line_endings: le, .. } => {
                let le = *le;
                let ok: Option<Cur> = match le {
                    LineEnding::CRLF => {
                        if c.i < t.len() && t[c.i] == '\r' && c.i + 1 < t.len() && t[c.i + 1]
                            == '\n' {
                            Some(advance(t, advance(t, c)))
                        } else {
                            None
                        }
                    },
                    LineEnding::LF => {
                        if c.i < t.len() && t[c.i] == '\n' {
                            Some(advance(t, c))
                        } else {
                            None
                        }
                    },
                    LineEnding::NONE => {
                        if c.i < t.len() && t[c.i] != '\r' && t[c.i] != '\n' {
                            Some(c)
                        } else {
                            None
                        }
                    },
                    LineEnding::ANY => {
                        let cj = if c.i < t.len() && t[c.i] == '\r' {
                            advance(t, c)
                        } else {
                            c
                        };
                        if cj.i < t.len() && t[cj.i] == '\n' {
                            Some(advance(t, cj))
                        } else {
                            None
                        }
                    },
                    LineEnding::IGNORE => {
                        if c.i < t.len() && t[c.i] == '\r' {
                            if c.i + 1 < t.len() && t[c.i + 1] == '\n' {
                                Some(advance(t, advance(t, c)))
                            } else {
                                Some(advance(t, c))
                            }
                        } else if c.i < t.len() && t[c.i] == '\n' {
                            Some(advance(t, c))
                        } else {
                            Some(c)
                        }
                    },
                };
                match ok {
                    Some(c2) => Ok(c2),
                    None => {
                        let fail_pos: Cur = match le {
                            LineEnding::ANY => {
                                if c.i < t.len() && t[c.i] == '\r' {
                                    advance(t, c)
                                } else {
                                    c
                                }
                            },
                            LineEnding::IGNORE => advance(t, c),
                            _ => c,
                        };
                        diags.push(Diag { pos: pos_of(fail_pos), issue: nl_issue_exec(le) });
                        assert(diags@.subrange(0, old(diags)@.len() as int) =~= old(diags)@);
                        if c.i < t.len() && t[c.i] == '\r' {
                            let c1 = advance(t, c);
                            if c1.i < t.len() && t[c1.i] == '\n' {
                                Ok(advance(t, c1))
                            } else {
                                Err(FatalError { pos: pos_of(c1) })
                            }
                        } else if c.i < t.len() && t[c.i] == '\n' {
                            Ok(advance(t, c))
                        } else {
                            Ok(c)
                        }
                    },
                }
            },
            JsonStyle::IGNORE => Ok(eat_multispace(t, c)),
        };
        proof {
            match &self.style {
                JsonStyle::STYLED { line_endings: le, .. } => {
                    if nl_ok_end(*le, t@, c.i as int) is None {
                        lemma_diags_view_extend(
                            old(diags)@,
                            diags@,
                            nl_fail_off(*le, t@, c.i as int),
                            nl_issue(*le),
                        );
                    }
                },
                JsonStyle::IGNORE => {},
            }
            assert(diags_view(diags@) =~= diags_view(old(diags)@) + spec_new_line(
                self.style,
                t@,
                c.i as int,
            ).1);
        }
        r
    }

    /// The indentation check at the start of an inner line: the unit
    /// repeated exactly `indent` times; when `last` holds, the line must
    /// then begin its content at once. Failures are one diagnostic each,
    /// and recovery consumes the spaces and tabs that stand here.
    fn parse_indentation(
        &self,
        t: &Vec<char>,
        c: Cur,
        indent: u64,
        diags: &mut Vec<Diag>,
        last: bool,
    ) -> (r: Cur)
        requires
            cur_wf(t@, c),
        ensures
            cur_wf(t@, r),
            r.i >= c.i,
            match self.style {
                JsonStyle::STYLED { indentation: Some(u), .. } => {
                    let uv = u@;
                    match rep_match(t@, c.i as int, uv, indent as nat) {
                        Ok(e) => {
                            if !last || (e < t@.len() && (t@[e] == '"' || t@[e] == '}')) {
                                final(diags)@ == old(diags)@ && r.i == e
                            } else {
                                &&& pushed_diag(
                                    old(diags)@,
                                    final(diags)@,
                                    e,
                                    StyleIssue::TooMuchIndentation,
                                )
                                &&& r.i == skip_space_tab(t@, c.i as int)
                            }
                        },
                        Err(f) => {
                            &&& pushed_diag(
                                old(diags)@,
                                final(diags)@,
                                f,
                                StyleIssue::NotEnoughIndentation,
                            )
                            &&& r.i == skip_space_tab(t@, c.i as int)
                        },
                    }
                },
                _ => final(diags)@ == old(diags)@ && r.i == skip_multispace(t@, c.i as int),
            },
            ({
                let (i2, ds) = spec_indentation(self.style, t@, c.i as int, indent as int, last);
                r.i == i2 && diags_view(final(diags)@) == diags_view(old(diags)@) + ds
            }),
    {
        let r = match &self.style {
            JsonStyle::STYLED { indentation: Some(u), .. } => {
                let uv = crate::util::str_to_chars(u.as_str());
                let mut k: u64 = 0;
                let mut cc = c;
                let mut failed: Option<Cur> = None;
                while k < indent && failed.is_none()
                    invariant
                        cur_wf(t@, cc),
                        cc.i >= c.i,
                        k <= indent,
                        failed is None ==> rep_match(t@, c.i as int, uv@, indent as nat)
                            == rep_match(t@, cc.i as int, uv@, (indent - k) as nat),
                        failed matches Some(fc) ==> rep_match(t@, c.i as int, uv@, indent as nat)
                            == Err::<int, int>(fc.i as int),
                    decreases indent - k,
                {
                    match match_lit(t, cc, &uv) {
                        Some(c2) => {
                            cc = c2;
                        },
                        None => {
                            failed = Some(cc);
                        },
                    }
                    k += 1;
                }
                match failed {
                    Some(fc) => {
                        diags.push(Diag { pos: pos_of(fc), issue: StyleIssue::NotEnoughIndentation });
                        assert(diags@.subrange(0, old(diags)@.len() as int) =~= old(diags)@);
                        eat_space_tab(t, c)
                    },
                    None => {
                        if !last || (cc.i < t.len() && (t[cc.i] == '"' || t[cc.i] == '}')) {
                            cc
                        } else {
                            diags.push(
                                Diag { pos: pos_of(cc), issue: StyleIssue::TooMuchIndentation },
                            );
                            assert(diags@.subrange(0, old(diags)@.len() as int) =~= old(diags)@);
                            eat_space_tab(t, c)
                        }
                    },
                }
            },
            _ => eat_multispace(t, c),
        };
        proof {
            match &self.style {
                JsonStyle::STYLED { indentation: Some(u), .. } => {
                    match rep_match(t@, c.i as int, u@, indent as nat) {
                        Ok(e) => {
                            if !(!last || (e < t@.len() && (t@[e] == '"' || t@[e] == '}'))) {
                                lemma_diags_view_extend(
                                    old(diags)@,
                                    diags@,
                                    e,
                                    StyleIssue::TooMuchIndentation,
                                );
                            }
                        },
                        Err(f) => {
                            lemma_diags_view_extend(
                                old(diags)@,
                                diags@,
                                f,
                                StyleIssue::NotEnoughIndentation,
                            );
                        },
                    }
                },
                _ => {},
            }
            assert(diags_view(diags@) =~= diags_view(old(diags)@) + spec_indentation(
                self.style,
                t@,
                c.i as int,
                indent as int,
                last,
            ).1);
        }
        r
    }
}

/// `new` carries every diagnostic of `old`, in place, and possibly more
/// after them.
pub open spec fn diags_extend(old: Seq<Diag>, new: Seq<Diag>) -> bool {
    old.len() <= new.len() && new.subrange(0, old.len() as int) =~= old
}

/// Whether a key that follows `prev` violates the required order.
pub open spec fn sort_violation(style: JsonStyle, prev: Seq<char>, cur: Seq<char>) -> bool {
    match style {
        JsonStyle::STYLED { order, sort_algorithm, .. } => match sort_algorithm {
            SortAlgorithm::NATURAL => (order == SortOrder::ASC
                && crate::natural_sort::spec_compare(prev, cur) == Ordering::Greater) || (order
                == SortOrder::DESC && crate::natural_sort::spec_compare(prev, cur)
                == Ordering::Less),
            SortAlgorithm::NORMAL => (order == SortOrder::ASC && crate::natural_sort::lex_cmp(
                prev,
                cur,
                0,
            ) == Ordering::Greater) || (order == SortOrder::DESC && crate::natural_sort::lex_cmp(
                prev,
                cur,
                0,
            ) == Ordering::Less),
            SortAlgorithm::NONE => false,
        },
        JsonStyle::IGNORE => false,
    }
}

/// The offset and rule of each diagnostic, in order. A position is an
/// opaque handle equal to another exactly when the offsets agree, so this
/// is the whole content of a diagnostic list.
pub open spec fn diags_view(s: Seq<Diag>) -> Seq<(int, StyleIssue)>
    decreases s,
{
    if s.len() == 0 {
        Seq::empty()
    } else {
        seq![(s[0].pos.offset as int, s[0].issue)] + diags_view(s.subrange(1, s.len() as int))
    }
}

/// The view of a diagnostic list has one pair per diagnostic.
pub proof fn lemma_diags_view_index(s: Seq<Diag>)
    ensures
        diags_view(s).len() == s.len(),
        forall|i: int|
            0 <= i < s.len() ==> diags_view(s)[i] == (s[i].pos.offset as int, s[i].issue),
    decreases s.len(),
{
    if s.len() > 0 {
        lemma_diags_view_index(s.subrange(1, s.len() as int));
    }
}

/// What the no-whitespace check does at `i`: where the cursor lands, and
/// the diagnostics it leaves.
pub open spec fn spec_maybe_space(style: JsonStyle, t: Seq<char>, i: int) -> (
    int,
    Seq<(int, StyleIssue)>,
) {
    match style {
        JsonStyle::STYLED { .. } => if i < t.len() && (t[i] == ' ' || t[i] == '\t') {
            (skip_space_tab(t, i), seq![(i, StyleIssue::MaybeSpace)])
        } else {
            (i, Seq::empty())
        },
        JsonStyle::IGNORE => (skip_multispace(t, i), Seq::empty()),
    }
}

/// What the after-colon check does at `i`.
pub open spec fn spec_post_colon(style: JsonStyle, t: Seq<char>, i: int) -> (
    int,
    Seq<(int, StyleIssue)>,
) {
    match style {
        JsonStyle::STYLED { post_colon: Some(p), .. } => {
            let pv = p@;
            if matches_at(t, i, pv) {
                if i + pv.len() < t.len() && (t[i + pv.len()] == '{' || t[i + pv.len()] == '"') {
                    (i + pv.len(), Seq::empty())
                } else {
                    (skip_multispace(t, i), seq![(i + pv.len(), StyleIssue::PostColonTooMuch)])
                }
            } else {
                (skip_multispace(t, i), seq![(i, StyleIssue::PostColon)])
            }
        },
        _ => (skip_multispace(t, i), Seq::empty()),
    }
}

/// What the line-break check does at `i`: where the cursor lands if the
/// check or its recovery goes through, and the diagnostics it leaves.
pub open spec fn spec_new_line(style: JsonStyle, t: Seq<char>, i: int) -> (
    Option<int>,
    Seq<(int, StyleIssue)>,
) {
    match style {
        JsonStyle::STYLED { line_endings: le, .. } => match nl_ok_end(le, t, i) {
            Some(e) => (Some(e), Seq::empty()),
            None => {
                let d = seq![(nl_fail_off(le, t, i), nl_issue(le))];
                match nl_recover(t, i) {
                    Some(e) => (Some(e), d),
                    None => (None, d),
                }
            },
        },
        JsonStyle::IGNORE => (Some(skip_multispace(t, i)), Seq::empty()),
    }
}

/// What the indentation check does at `i` for nesting depth `ind`.
pub open spec fn spec_indentation(
    style: JsonStyle,
    t: Seq<char>,
    i: int,
    ind: int,
    last: bool,
) -> (int, Seq<(int, StyleIssue)>) {
    match style {
        JsonStyle::STYLED { indentation: Some(u), .. } => match rep_match(t, i, u@, ind as nat) {
            Ok(e) => if !last || (e < t.len() && (t[e] == '"' || t[e] == '}')) {
                (e, Seq::empty())
            } else {
                (skip_space_tab(t, i), seq![(e, StyleIssue::TooMuchIndentation)])
            },
            Err(f) => (skip_space_tab(t, i), seq![(f, StyleIssue::NotEnoughIndentation)]),
        },
        _ => (skip_multispace(t, i), Seq::empty()),
    }
}

/// What the string token at `i` is: where the cursor lands and the raw
/// contents, if a terminated string starts here.
pub open spec fn spec_string(t: Seq<char>, i: int) -> Option<(int, Seq<char>)> {
    if i < t.len() && t[i] == '"' && scan_string(t, i + 1) is Some {
        let e = scan_string(t, i + 1)->0;
        Some((e + 1, t.subrange(i + 1, e)))
    } else {
        None
    }
}

/// What parsing one entry at `i` does under the style: `None` for a
/// structural fault, otherwise the cursor after the entry, the key and
/// the value's tree; in both cases the diagnostics left behind, in order.
/// The fuel only bounds the recursion and never runs out when it is more
/// than twice the remaining text.
pub open spec fn spec_entry(style: JsonStyle, t: Seq<char>, i: int, ind: int, fuel: nat) -> (
    Option<(int, Seq<char>, VNode)>,
    Seq<(int, StyleIssue)>,
)
    decreases fuel, 0int,
{
    if fuel == 0 {
        (None, Seq::empty())
    } else {
        match spec_string(t, i) {
            None => (None, Seq::empty()),
            Some((i1, key)) => {
                let (i2, d1) = spec_maybe_space(style, t, i1);
                if !(i2 < t.len() && t[i2] == ':') {
                    (None, d1)
                } else {
                    let (i4, d2) = spec_post_colon(style, t, i2 + 1);
                    if i4 < t.len() && t[i4] == '"' {
                        match spec_string(t, i4) {
                            Some((i5, v)) => (Some((i5, key, VNode::Str(v))), d1 + d2),
                            None => (None, d1 + d2),
                        }
                    } else if i4 < t.len() && t[i4] == '{' {
                        let (ro, d3) = spec_object(style, t, i4, ind, (fuel - 1) as nat);
                        match ro {
                            Some((i5, es)) => (Some((i5, key, VNode::Obj(es))), d1 + d2 + d3),
                            None => (None, d1 + d2 + d3),
                        }
                    } else {
                        (None, d1 + d2)
                    }
                }
            },
        }
    }
}

/// What parsing the rest of a non-empty object body at `i` does: the
/// entries through the closing brace, with each key checked against the
/// one before it (`prev` carries the previous key, if any).
pub open spec fn spec_entries(
    style: JsonStyle,
    t: Seq<char>,
    i: int,
    ind: int,
    prev: Option<Seq<char>>,
    fuel: nat,
) -> (Option<(int, Seq<(Seq<char>, VNode)>)>, Seq<(int, StyleIssue)>)
    decreases fuel, 2int,
{
    if fuel == 0 {
        (None, Seq::empty())
    } else {
        let (re, d1) = spec_entry(style, t, i, ind + 1, (fuel - 1) as nat);
        match re {
            None => (None, d1),
            Some((i1, k, v)) => {
                let dsort: Seq<(int, StyleIssue)> = match prev {
                    Some(pk) => if sort_violation(style, pk, k) {
                        seq![(i + 1, StyleIssue::Sorting)]
                    } else {
                        Seq::empty()
                    },
                    None => Seq::empty(),
                };
                let (rc, dc) = spec_entries_cont(style, t, i1, k, v, ind, (fuel - 1) as nat);
                (rc, d1 + dsort + dc)
            },
        }
    }
}

/// What happens behind one parsed entry: the separator, the line break,
/// the next line's indentation, and either the closing brace or the next
/// entries.
pub open spec fn spec_entries_cont(
    style: JsonStyle,
    t: Seq<char>,
    i1: int,
    k: Seq<char>,
    v: VNode,
    ind: int,
    fuel: nat,
) -> (Option<(int, Seq<(Seq<char>, VNode)>)>, Seq<(int, StyleIssue)>)
    decreases fuel, 3int,
{
    let (i2, d2) = spec_maybe_space(style, t, i1);
    let comma = i2 < t.len() && t[i2] == ',';
    let i3 = if comma {
        i2 + 1
    } else {
        i2
    };
    let (rn, d3) = spec_new_line(style, t, i3);
    match rn {
        None => (None, d2 + d3),
        Some(i4) => {
            if !comma {
                let (i5, d4) = spec_indentation(style, t, i4, ind, true);
                if i5 < t.len() && t[i5] == '}' {
                    (Some((i5 + 1, seq![(k, v)])), d2 + d3 + d4)
                } else {
                    (None, d2 + d3 + d4)
                }
            } else {
                let (i5, d4) = spec_indentation(style, t, i4, ind + 1, true);
                let (rr, d5) = spec_entries(style, t, i5, ind, Some(k), fuel);
                match rr {
                    Some((i6, es)) => (Some((i6, seq![(k, v)] + es)), d2 + d3 + d4 + d5),
                    None => (None, d2 + d3 + d4 + d5),
                }
            }
        },
    }
}

/// What parsing one object at `i` does under the style: `None` for a
/// structural fault, otherwise the cursor after the closing brace and the
/// entry trees; in both cases the diagnostics left behind, in order.
pub open spec fn spec_object(style: JsonStyle, t: Seq<char>, i: int, ind: int, fuel: nat) -> (
    Option<(int, Seq<(Seq<char>, VNode)>)>,
    Seq<(int, StyleIssue)>,
)
    decreases fuel, 1int,
{
    if fuel == 0 {
        (None, Seq::empty())
    } else if !(i < t.len() && t[i] == '{') {
        (None, Seq::empty())
    } else {
        let (rn, d1) = spec_new_line(style, t, i + 1);
        match rn {
            None => (None, d1),
            Some(i2) => {
                let (i3, d2) = spec_indentation(style, t, i2, ind, false);
                if i3 < t.len() && t[i3] == '}' {
                    (Some((i3 + 1, Seq::empty())), d1 + d2)
                } else {
                    let (i4, d3) = spec_indentation(style, t, i3, 1, true);
                    let (rr, d4) = spec_entries(style, t, i4, ind, None, (fuel - 1) as nat);
                    match rr {
                        Some((i5, es)) => (Some((i5, es)), d1 + d2 + d3 + d4),
                        None => (None, d1 + d2 + d3 + d4),
                    }
                }
            },
        }
    }
}

/// What parsing a whole text does: the root object at the start of the
/// text, with enough fuel for any input.
pub open spec fn spec_parse(style: JsonStyle, t: Seq<char>) -> (
    Option<(int, Seq<(Seq<char>, VNode)>)>,
    Seq<(int, StyleIssue)>,
) {
    spec_object(style, t, 0, 0, (2 * t.len() + 2) as nat)
}

/// The key of the last entry, if there is one: what the next key is
/// checked against.
pub open spec fn prev_of(vs: Seq<(JsonString, JsonType)>) -> Option<Seq<char>> {
    if vs.len() > 0 {
        Some(vs.last().0.value@)
    } else {
        None
    }
}

/// What parsing one entry must have done, for one fuel: the call fails
/// exactly when the mirror does, the cursor, key and tree agree with the
/// mirror, and the diagnostics grow by exactly the mirror's.
pub open spec fn entry_obligation(
    style: JsonStyle,
    t: Seq<char>,
    i: int,
    ind: int,
    fuel: nat,
    d_old: Seq<Diag>,
    d_new: Seq<Diag>,
    r: Result<(Cur, (JsonString, JsonType)), FatalError>,
) -> bool {
    let sr = spec_entry(style, t, i, ind, fuel);
    &&& diags_view(d_new) == diags_view(d_old) + sr.1
    &&& match r {
        Ok((c2, kv)) => sr.0 == Some((c2.i as int, kv.0.value@, view_value(kv.1))),
        Err(_) => sr.0 is None,
    }
}

/// What parsing the rest of an object body must have done, for one fuel.
pub open spec fn entries_obligation(
    style: JsonStyle,
    t: Seq<char>,
    i: int,
    ind: int,
    fuel: nat,
    d_old: Seq<Diag>,
    d_new: Seq<Diag>,
    v_old: Seq<(JsonString, JsonType)>,
    v_new: Seq<(JsonString, JsonType)>,
    r: Result<Cur, FatalError>,
) -> bool {
    let sr = spec_entries(style, t, i, ind, prev_of(v_old), fuel);
    &&& diags_view(d_new) == diags_view(d_old) + sr.1
    &&& match r {
        Ok(c2) => match sr.0 {
            Some((i2, es)) => c2.i == i2 && view_entries(v_new) == view_entries(v_old) + es,
            None => false,
        },
        Err(_) => sr.0 is None,
    }
}

/// What parsing the continuation of one entry must have done, for one
/// fuel: the separators, the line break, the indentation and either the
/// closing brace or the remaining entries.
pub open spec fn cont_obligation(
    style: JsonStyle,
    t: Seq<char>,
    i1: int,
    k: Seq<char>,
    v: VNode,
    ind: int,
    fuel: nat,
    d_old: Seq<Diag>,
    d_new: Seq<Diag>,
    v_old: Seq<(JsonString, JsonType)>,
    v_new: Seq<(JsonString, JsonType)>,
    r: Result<Cur, FatalError>,
) -> bool {
    let sr = spec_entries_cont(style, t, i1, k, v, ind, fuel);
    &&& diags_view(d_new) == diags_view(d_old) + sr.1
    &&& match r {
        Ok(c2) => match sr.0 {
            Some((i2, es)) => c2.i == i2 && view_entries(v_new) == view_entries(v_old)
                + es.subrange(1, es.len() as int),
            None => false,
        },
        Err(_) => sr.0 is None,
    }
}

/// What parsing one object must have done, for one fuel.
pub open spec fn object_obligation(
    style: JsonStyle,
    t: Seq<char>,
    i: int,
    ind: int,
    fuel: nat,
    d_old: Seq<Diag>,
    d_new: Seq<Diag>,
    r: Result<(Cur, JsonObject), FatalError>,
) -> bool {
    let sr = spec_object(style, t, i, ind, fuel);
    &&& diags_view(d_new) == diags_view(d_old) + sr.1
    &&& match r {
        Ok((c2, o)) => match sr.0 {
            Some((i2, es)) => c2.i == i2 && view_entries(o.values@) == es,
            None => false,
        },
        Err(_) => sr.0 is None,
    }
}

/// The closing-brace case of the continuation meets its obligation.
proof fn lemma_cont_close(
    style: JsonStyle,
    t: Seq<char>,
    i1: int,
    k: Seq<char>,
    v: VNode,
    ind: int,
    d0: Seq<Diag>,
    dnew: Seq<Diag>,
    vs: Seq<(JsonString, JsonType)>,
    c6: Cur,
)
    requires
        ({
            let (i2, d2) = spec_maybe_space(style, t, i1);
            let comma = i2 < t.len() && t[i2] == ',';
            &&& !comma
            &&& match spec_new_line(style, t, i2).0 {
                Some(i4) => {
                    let (i5, d4) = spec_indentation(style, t, i4, ind, true);
                    &&& i5 < t.len() && t[i5] == '}'
                    &&& c6.i == i5 + 1
                    &&& diags_view(dnew) == diags_view(d0) + d2 + spec_new_line(style, t, i2).1
                        + d4
                },
                None => false,
            }
        }),
    ensures
        forall|fuel: nat|
            fuel > 2 * (t.len() - i1) + 1 ==> #[trigger] cont_obligation(
                style,
                t,
                i1,
                k,
                v,
                ind,
                fuel,
                d0,
                dnew,
                vs,
                vs,
                Ok::<Cur, FatalError>(c6),
            ),
{
    assert forall|fuel: nat|
        fuel > 2 * (t.len() - i1) + 1 implies cont_obligation(
        style,
        t,
        i1,
        k,
        v,
        ind,
        fuel,
        d0,
        dnew,
        vs,
        vs,
        Ok::<Cur, FatalError>(c6),
    ) by {
        assert(diags_view(dnew) =~= diags_view(d0) + spec_entries_cont(
            style,
            t,
            i1,
            k,
            v,
            ind,
            fuel,
        ).1);
        assert(seq![(k, v)].subrange(1, 1) =~= Seq::<(Seq<char>, VNode)>::empty());
        assert(view_entries(vs) =~= view_entries(vs) + seq![(k, v)].subrange(1, 1));
    }
}

/// The comma case of the continuation meets its obligation, given the
/// remaining entries met theirs.
proof fn lemma_cont_recurse(
    style: JsonStyle,
    t: Seq<char>,
    i1: int,
    k: Seq<char>,
    v: VNode,
    ind: int,
    d0: Seq<Diag>,
    dind: Seq<Diag>,
    dnew: Seq<Diag>,
    v0: Seq<(JsonString, JsonType)>,
    vnew: Seq<(JsonString, JsonType)>,
    i5: int,
    r: Result<Cur, FatalError>,
)
    requires
        prev_of(v0) == Some(k),
        ({
            let (i2, d2) = spec_maybe_space(style, t, i1);
            let comma = i2 < t.len() && t[i2] == ',';
            &&& comma
            &&& match spec_new_line(style, t, i2 + 1).0 {
                Some(i4) => {
                    let (i5x, d4) = spec_indentation(style, t, i4, ind + 1, true);
                    &&& i5 == i5x
                    &&& i5 >= i1
                    &&& diags_view(dind) == diags_view(d0) + d2 + spec_new_line(
                        style,
                        t,
                        i2 + 1,
                    ).1 + d4
                },
                None => false,
            }
        }),
        forall|fuel: nat|
            fuel > 2 * (t.len() - i5) + 1 ==> #[trigger] entries_obligation(
                style,
                t,
                i5,
                ind,
                fuel,
                dind,
                dnew,
                v0,
                vnew,
                r,
            ),
    ensures
        forall|fuel: nat|
            fuel > 2 * (t.len() - i1) + 1 ==> #[trigger] cont_obligation(
                style,
                t,
                i1,
                k,
                v,
                ind,
                fuel,
                d0,
                dnew,
                v0,
                vnew,
                r,
            ),
{
    assert forall|fuel: nat|
        fuel > 2 * (t.len() - i1) + 1 implies cont_obligation(
        style,
        t,
        i1,
        k,
        v,
        ind,
        fuel,
        d0,
        dnew,
        v0,
        vnew,
        r,
    ) by {
        assert(entries_obligation(style, t, i5, ind, fuel, dind, dnew, v0, vnew, r));
        let st = spec_entries(style, t, i5, ind, Some(k), fuel);
        assert(diags_view(dnew) =~= diags_view(d0) + spec_entries_cont(
            style,
            t,
            i1,
            k,
            v,
            ind,
            fuel,
        ).1);
        match r {
            Ok(c6) => {
                assert(st.0 matches Some(_));
                let stv = st.0->0;
                assert((seq![(k, v)] + stv.1).subrange(1, (seq![(k, v)] + stv.1).len() as int)
                    =~= stv.1);
                assert(view_entries(vnew) =~= view_entries(v0) + (seq![(k, v)]
                    + stv.1).subrange(1, (seq![(k, v)] + stv.1).len() as int));
            },
            Err(_) => {},
        }
    }
}

/// Appending one diagnostic appends its offset and rule to the view.
proof fn lemma_diags_view_extend(a: Seq<Diag>, b: Seq<Diag>, off: int, issue: StyleIssue)
    requires
        pushed_diag(a, b, off, issue),
    ensures
        diags_view(b) == diags_view(a) + seq![(off, issue)],
{
    lemma_diags_view_index(a);
    lemma_diags_view_index(b);
    assert(diags_view(b) =~= diags_view(a) + seq![(off, issue)]);
}

impl Parser {
    /// Whether a key that follows `prev` violates the required order.
    fn sort_check(&self, prev: &JsonString, k: &JsonString) -> (r: bool)
        ensures
            r == sort_violation(self.style, prev.value@, k.value@),
    {
        match &self.style {
            JsonStyle::STYLED { order, sort_algorithm, .. } => {
                match sort_algorithm {
                    SortAlgorithm::NATURAL => {
                        let o = crate::natural_sort::compare(
                            prev.value.as_str(),
                            k.value.as_str(),
                        );
                        match (order, o) {
                            (SortOrder::ASC, Ordering::Greater) => true,
                            (SortOrder::DESC, Ordering::Less) => true,
                            _ => false,
                        }
                    },
                    SortAlgorithm::NORMAL => {
                        let o = crate::natural_sort::compare_lex(
                            prev.value.as_str(),
                            k.value.as_str(),
                        );
                        match (order, o) {
                            (SortOrder::ASC, Ordering::Greater) => true,
                            (SortOrder::DESC, Ordering::Less) => true,
                            _ => false,
                        }
                    },
                    SortAlgorithm::NONE => false,
                }
            },
            JsonStyle::IGNORE => false,
        }
    }

    /// Parse one `"key": value` entry; `indent` is the nesting depth of
    /// the entry's own lines, handed on to a nested object. The result,
    /// the key, the value's tree and the diagnostics are exactly what the
    /// mirror `spec_entry` says of the style and the text.
    #[verifier::rlimit(100)]
    #[verifier::spinoff_prover]
    pub fn parse_entry(&self, t: &Vec<char>, c: Cur, indent: u64, diags: &mut Vec<Diag>) -> (r:
        Result<(Cur, (JsonString, JsonType)), FatalError>)
        requires
            cur_wf(t@, c),
            indent as int <= c.i as int,
        ensures
            diags_extend(old(diags)@, final(diags)@),
            self.style is IGNORE ==> final(diags)@ == old(diags)@,
            match r {
                Ok((c2, kv)) => cur_wf(t@, c2) && c2.i > c.i && kv.0.start.offset == c.i + 1,
                Err(_) => true,
            },
            forall|fuel: nat|
                fuel > 2 * (t@.len() - c.i) ==> #[trigger] entry_obligation(
                    self.style,
                    t@,
                    c.i as int,
                    indent as int,
                    fuel,
                    old(diags)@,
                    final(diags)@,
                    r,
                ),
        decreases t@.len() - c.i, 0int,
    {
        let ghost d0 = diags@;
        let ghost i0 = c.i as int;
        let rstr = parse_string(t, c);
        let (c1, key) = match rstr {
            Ok(x) => x,
            Err(e) => {
                proof {
                    assert(spec_string(t@, i0) is None);
                    assert forall|fuel: nat| fuel > 2 * (t@.len() - i0) implies entry_obligation(
                        self.style,
                        t@,
                        i0,
                        indent as int,
                        fuel,
                        d0,
                        diags@,
                        Err::<(Cur, (JsonString, JsonType)), FatalError>(e),
                    ) by {
                        assert(diags_view(diags@) =~= diags_view(d0) + spec_entry(
                            self.style,
                            t@,
                            i0,
                            indent as int,
                            fuel,
                        ).1);
                    }
                }
                return Err(e);
            },
        };
        proof {
            assert(spec_string(t@, i0) == Some((c1.i as int, key.value@)));
        }
        let c2 = self.parse_maybe_space(t, c1, diags);
        let ghost ms = spec_maybe_space(self.style, t@, c1.i as int);
        proof {
            if diags@.len() > d0.len() {
                lemma_diags_view_extend(d0, diags@, c1.i as int, StyleIssue::MaybeSpace);
            }
            assert(ms.0 == c2.i as int);
            assert(diags_view(diags@) =~= diags_view(d0) + ms.1);
        }
        if c2.i >= t.len() || t[c2.i] != ':' {
            proof {
                assert forall|fuel: nat| fuel > 2 * (t@.len() - i0) implies entry_obligation(
                    self.style,
                    t@,
                    i0,
                    indent as int,
                    fuel,
                    d0,
                    diags@,
                    Err::<(Cur, (JsonString, JsonType)), FatalError>(
                        FatalError { pos: Pos { line: c2.line, col: c2.col, offset: c2.i } },
                    ),
                ) by {
                    assert(spec_entry(self.style, t@, i0, indent as int, fuel).1 =~= ms.1);
                    assert(diags_view(diags@) =~= diags_view(d0) + spec_entry(
                        self.style,
                        t@,
                        i0,
                        indent as int,
                        fuel,
                    ).1);
                }
            }
            return Err(FatalError { pos: pos_of(c2) });
        }
        let c3 = advance(t, c2);
        let ghost dms = diags@;
        let c4 = self.parse_post_colon(t, c3, diags);
        let ghost pc = spec_post_colon(self.style, t@, c3.i as int);
        proof {
            match &self.style {
                JsonStyle::STYLED { post_colon: Some(p), .. } => {
                    let pv = p@;
                    if matches_at(t@, c3.i as int, pv) {
                        if c3.i + pv.len() < t@.len() && (t@[c3.i + pv.len()] == '{' || t@[c3.i
                            + pv.len()] == '"') {
                        } else {
                            lemma_diags_view_extend(
                                dms,
                                diags@,
                                c3.i + pv.len(),
                                StyleIssue::PostColonTooMuch,
                            );
                        }
                    } else {
                        lemma_diags_view_extend(dms, diags@, c3.i as int, StyleIssue::PostColon);
                    }
                },
                _ => {},
            }
            assert(pc.0 == c4.i as int);
            assert(diags_view(diags@) =~= diags_view(dms) + pc.1);
            assert(diags_view(diags@) =~= diags_view(d0) + ms.1 + pc.1);
        }
        if c4.i < t.len() && t[c4.i] == '"' {
            let rv = parse_string(t, c4);
            match rv {
                Ok((c5, v)) => {
                    proof {
                        assert(spec_string(t@, c4.i as int) == Some((c5.i as int, v.value@)));
                        assert forall|fuel: nat|
                            fuel > 2 * (t@.len() - i0) implies entry_obligation(
                            self.style,
                            t@,
                            i0,
                            indent as int,
                            fuel,
                            d0,
                            diags@,
                            Ok::<(Cur, (JsonString, JsonType)), FatalError>(
                                (c5, (key, JsonType::String(v))),
                            ),
                        ) by {
                            assert(view_value(JsonType::String(v)) == VNode::Str(v.value@));
                            assert(spec_entry(self.style, t@, i0, indent as int, fuel).1 =~= ms.1
                                + pc.1);
                            assert(diags_view(diags@) =~= diags_view(d0) + spec_entry(
                                self.style,
                                t@,
                                i0,
                                indent as int,
                                fuel,
                            ).1);
                        }
                    }
                    Ok((c5, (key, JsonType::String(v))))
                },
                Err(e) => {
                    proof {
                        assert(spec_string(t@, c4.i as int) is None);
                        assert forall|fuel: nat|
                            fuel > 2 * (t@.len() - i0) implies entry_obligation(
                            self.style,
                            t@,
                            i0,
                            indent as int,
                            fuel,
                            d0,
                            diags@,
                            Err::<(Cur, (JsonString, JsonType)), FatalError>(e),
                        ) by {
                            assert(spec_entry(self.style, t@, i0, indent as int, fuel).1 =~= ms.1
                                + pc.1);
                            assert(diags_view(diags@) =~= diags_view(d0) + spec_entry(
                                self.style,
                                t@,
                                i0,
                                indent as int,
                                fuel,
                            ).1);
                        }
                    }
                    Err(e)
                },
            }
        } else if c4.i < t.len() && t[c4.i] == '{' {
            let ghost dpc = diags@;
            let ro = self.parse_object(t, c4, indent, diags);
            match ro {
                Ok((c5, o)) => {
                    proof {
                        assert forall|fuel: nat|
                            fuel > 2 * (t@.len() - i0) implies entry_obligation(
                            self.style,
                            t@,
                            i0,
                            indent as int,
                            fuel,
                            d0,
                            diags@,
                            Ok::<(Cur, (JsonString, JsonType)), FatalError>(
                                (c5, (key, JsonType::Object(o))),
                            ),
                        ) by {
                            assert(c4.i >= i0 + 3);
                            assert(object_obligation(
                                self.style,
                                t@,
                                c4.i as int,
                                indent as int,
                                (fuel - 1) as nat,
                                dpc,
                                diags@,
                                Ok::<(Cur, JsonObject), FatalError>((c5, o)),
                            ));
                            let so = spec_object(
                                self.style,
                                t@,
                                c4.i as int,
                                indent as int,
                                (fuel - 1) as nat,
                            );
                            assert(spec_entry(self.style, t@, i0, indent as int, fuel).1 =~= ms.1
                                + pc.1 + so.1);
                            assert(diags_view(diags@) =~= diags_view(d0) + (ms.1 + pc.1 + so.1));
                        }
                    }
                    Ok((c5, (key, JsonType::Object(o))))
                },
                Err(e) => {
                    proof {
                        assert forall|fuel: nat|
                            fuel > 2 * (t@.len() - i0) implies entry_obligation(
                            self.style,
                            t@,
                            i0,
                            indent as int,
                            fuel,
                            d0,
                            diags@,
                            Err::<(Cur, (JsonString, JsonType)), FatalError>(e),
                        ) by {
                            assert(c4.i >= i0 + 3);
                            assert(object_obligation(
                                self.style,
                                t@,
                                c4.i as int,
                                indent as int,
                                (fuel - 1) as nat,
                                dpc,
                                diags@,
                                Err::<(Cur, JsonObject), FatalError>(e),
                            ));
                            let so = spec_object(
                                self.style,
                                t@,
                                c4.i as int,
                                indent as int,
                                (fuel - 1) as nat,
                            );
                            assert(spec_entry(self.style, t@, i0, indent as int, fuel).1 =~= ms.1
                                + pc.1 + so.1);
                            assert(diags_view(diags@) =~= diags_view(d0) + (ms.1 + pc.1 + so.1));
                        }
                    }
                    Err(e)
                },
            }
        } else {
            proof {
                assert forall|fuel: nat| fuel > 2 * (t@.len() - i0) implies entry_obligation(
                    self.style,
                    t@,
                    i0,
                    indent as int,
                    fuel,
                    d0,
                    diags@,
                    Err::<(Cur, (JsonString, JsonType)), FatalError>(
                        FatalError { pos: Pos { line: c4.line, col: c4.col, offset: c4.i } },
                    ),
                ) by {
                    assert(spec_entry(self.style, t@, i0, indent as int, fuel).1 =~= ms.1 + pc.1);
                    assert(diags_view(diags@) =~= diags_view(d0) + spec_entry(
                        self.style,
                        t@,
                        i0,
                        indent as int,
                        fuel,
                    ).1);
                }
            }
            Err(FatalError { pos: pos_of(c4) })
        }
    }

    /// Parse the non-empty tail of an object body: entries separated by
    /// commas, each on its own line under the style, through the closing
    /// brace. Keys out of the required order are diagnostics, never
    /// faults. The result, the entries appended and the diagnostics are
    /// exactly what the mirror `spec_entries` says.
    #[verifier::rlimit(100)]
    fn parse_entries(
        &self,
        t: &Vec<char>,
        c: Cur,
        indent: u64,
        diags: &mut Vec<Diag>,
        values: &mut Vec<(JsonString, JsonType)>,
    ) -> (r: Result<Cur, FatalError>)
        requires
            cur_wf(t@, c),
            (indent as int) < (c.i as int),
        ensures
            diags_extend(old(diags)@, final(diags)@),
            self.style is IGNORE ==> final(diags)@ == old(diags)@,
            final(values)@.len() >= old(values)@.len(),
            match r {
                Ok(c2) => cur_wf(t@, c2) && c2.i > c.i && final(values)@.len() > old(
                    values,
                )@.len(),
                Err(_) => true,
            },
            forall|fuel: nat|
                fuel > 2 * (t@.len() - c.i) + 1 ==> #[trigger] entries_obligation(
                    self.style,
                    t@,
                    c.i as int,
                    indent as int,
                    fuel,
                    old(diags)@,
                    final(diags)@,
                    old(values)@,
                    final(values)@,
                    r,
                ),
        decreases t@.len() - c.i, 2int,
    {
        let ghost d0 = diags@;
        let ghost v0 = values@;
        let ghost i0 = c.i as int;
        let ghost ind = indent as int;
        let rentry = self.parse_entry(t, c, indent + 1, diags);
        let ghost dent = diags@;
        let (c1, kv) = match rentry {
            Ok(x) => x,
            Err(e) => {
                proof {
                    assert forall|fuel: nat|
                        fuel > 2 * (t@.len() - i0) + 1 implies entries_obligation(
                        self.style,
                        t@,
                        i0,
                        ind,
                        fuel,
                        d0,
                        diags@,
                        v0,
                        values@,
                        Err::<Cur, FatalError>(e),
                    ) by {
                        assert(entry_obligation(
                            self.style,
                            t@,
                            i0,
                            ind + 1,
                            (fuel - 1) as nat,
                            d0,
                            dent,
                            Err::<(Cur, (JsonString, JsonType)), FatalError>(e),
                        ));
                        assert(diags_view(diags@) =~= diags_view(d0) + spec_entries(
                            self.style,
                            t@,
                            i0,
                            ind,
                            prev_of(v0),
                            fuel,
                        ).1);
                    }
                }
                return Err(e);
            },
        };
        let has_prev = values.len() > 0;
        let mut violated: bool = false;
        if has_prev {
            let prev = &values[values.len() - 1].0;
            violated = self.sort_check(prev, &kv.0);
        }
        let ghost dsort: Seq<(int, StyleIssue)> = match prev_of(v0) {
            Some(pk) => if sort_violation(self.style, pk, kv.0.value@) {
                seq![(i0 + 1, StyleIssue::Sorting)]
            } else {
                Seq::empty()
            },
            None => Seq::empty(),
        };
        if violated {
            let ghost dpre = diags@;
            diags.push(Diag { pos: kv.0.start, issue: StyleIssue::Sorting });
            proof {
                assert(diags@.subrange(0, dpre.len() as int) =~= dpre);
                assert(diags@.subrange(0, old(diags)@.len() as int) =~= old(diags)@);
                lemma_diags_view_extend(dpre, diags@, i0 + 1, StyleIssue::Sorting);
            }
        }
        proof {
            assert(diags_view(diags@) =~= diags_view(dent) + dsort);
        }
        let ghost kvv: (Seq<char>, VNode) = (kv.0.value@, view_value(kv.1));
        values.push(kv);
        let ghost vp = values@;
        proof {
            crate::parser::model::lemma_view_entries_index(v0);
            crate::parser::model::lemma_view_entries_index(vp);
        }
        let ghost dso = diags@;
        proof {
            assert(vp.last() == vp[vp.len() - 1]);
            assert(prev_of(vp) == Some(kvv.0));
        }
        let r = self.parse_entries_cont(t, c1, Ghost(kvv), indent, diags, values);
        proof {
            assert(diags@.subrange(0, old(diags)@.len() as int) =~= old(diags)@);
            assert forall|fuel: nat|
                fuel > 2 * (t@.len() - i0) + 1 implies entries_obligation(
                self.style,
                t@,
                i0,
                ind,
                fuel,
                d0,
                diags@,
                v0,
                values@,
                r,
            ) by {
                assert(entry_obligation(
                    self.style,
                    t@,
                    i0,
                    ind + 1,
                    (fuel - 1) as nat,
                    d0,
                    dent,
                    Ok::<(Cur, (JsonString, JsonType)), FatalError>((c1, kv)),
                ));
                assert(cont_obligation(
                    self.style,
                    t@,
                    c1.i as int,
                    kvv.0,
                    kvv.1,
                    ind,
                    (fuel - 1) as nat,
                    dso,
                    diags@,
                    vp,
                    values@,
                    r,
                ));
                let sc = spec_entries_cont(
                    self.style,
                    t@,
                    c1.i as int,
                    kvv.0,
                    kvv.1,
                    ind,
                    (fuel - 1) as nat,
                );
                assert(diags_view(diags@) =~= diags_view(d0) + spec_entries(
                    self.style,
                    t@,
                    i0,
                    ind,
                    prev_of(v0),
                    fuel,
                ).1);
                match r {
                    Ok(c6) => {
                        assert(sc.0 matches Some(_));
                        let scv = sc.0->0;
                        assert(scv.1[0] == kvv);
                        assert(view_entries(vp) =~= view_entries(v0) + seq![kvv]);
                        assert(view_entries(values@) =~= view_entries(v0) + scv.1);
                    },
                    Err(_) => {},
                }
            }
        }
        r
    }

    /// Parse what follows one entry of an object body: the separator, the
    /// line break, the next line's indentation, and either the closing
    /// brace or the remaining entries. `kvv` is the entry just parsed, as
    /// the mirror `spec_entries_cont` accounts for it.
    #[verifier::rlimit(100)]
    fn parse_entries_cont(
        &self,
        t: &Vec<char>,
        c1: Cur,
        Ghost(kvv): Ghost<(Seq<char>, VNode)>,
        indent: u64,
        diags: &mut Vec<Diag>,
        values: &mut Vec<(JsonString, JsonType)>,
    ) -> (r: Result<Cur, FatalError>)
        requires
            cur_wf(t@, c1),
            (indent as int) < (c1.i as int),
            prev_of(old(values)@) == Some(kvv.0),
        ensures
            diags_extend(old(diags)@, final(diags)@),
            self.style is IGNORE ==> final(diags)@ == old(diags)@,
            final(values)@.len() >= old(values)@.len(),
            match r {
                Ok(c2) => cur_wf(t@, c2) && c2.i > c1.i,
                Err(_) => true,
            },
            forall|fuel: nat|
                fuel > 2 * (t@.len() - c1.i) + 1 ==> #[trigger] cont_obligation(
                    self.style,
                    t@,
                    c1.i as int,
                    kvv.0,
                    kvv.1,
                    indent as int,
                    fuel,
                    old(diags)@,
                    final(diags)@,
                    old(values)@,
                    final(values)@,
                    r,
                ),
        decreases t@.len() - c1.i, 3int,
    {
        let ghost d0 = diags@;
        let ghost v0 = values@;
        let ghost ind = indent as int;
        let c2 = self.parse_maybe_space(t, c1, diags);
        let ghost ms = spec_maybe_space(self.style, t@, c1.i as int);
        proof {
            assert(diags@.subrange(0, old(diags)@.len() as int) =~= old(diags)@);
            assert(diags_view(diags@) =~= diags_view(d0) + ms.1);
        }
        let comma = c2.i < t.len() && t[c2.i] == ',';
        let c3 = if comma {
            advance(t, c2)
        } else {
            c2
        };
        let ghost nl = spec_new_line(self.style, t@, c3.i as int);
        let c4 = match self.parse_new_line(t, c3, diags) {
            Ok(cx) => {
                proof {
                    assert(diags@.subrange(0, old(diags)@.len() as int) =~= old(diags)@);
                    assert(diags_view(diags@) =~= diags_view(d0) + ms.1 + nl.1);
                }
                cx
            },
            Err(e) => {
                proof {
                    assert(diags@.subrange(0, old(diags)@.len() as int) =~= old(diags)@);
                    assert forall|fuel: nat|
                        fuel > 2 * (t@.len() - c1.i) + 1 implies cont_obligation(
                        self.style,
                        t@,
                        c1.i as int,
                        kvv.0,
                        kvv.1,
                        ind,
                        fuel,
                        d0,
                        diags@,
                        v0,
                        values@,
                        Err::<Cur, FatalError>(e),
                    ) by {
                        assert(diags_view(diags@) =~= diags_view(d0) + spec_entries_cont(
                            self.style,
                            t@,
                            c1.i as int,
                            kvv.0,
                            kvv.1,
                            ind,
                            fuel,
                        ).1);
                    }
                }
                return Err(e);
            },
        };
        if !comma {
            let c5 = self.parse_indentation(t, c4, indent, diags, true);
            let ghost idn = spec_indentation(self.style, t@, c4.i as int, ind, true);
            proof {
                assert(diags@.subrange(0, old(diags)@.len() as int) =~= old(diags)@);
                assert(diags_view(diags@) =~= diags_view(d0) + ms.1 + nl.1 + idn.1);
            }
            if c5.i < t.len() && t[c5.i] == '}' {
                let c6 = advance(t, c5);
                proof {
                    lemma_cont_close(
                        self.style,
                        t@,
                        c1.i as int,
                        kvv.0,
                        kvv.1,
                        ind,
                        d0,
                        diags@,
                        values@,
                        c6,
                    );
                }
                Ok(c6)
            } else {
                proof {
                    assert forall|fuel: nat|
                        fuel > 2 * (t@.len() - c1.i) + 1 implies cont_obligation(
                        self.style,
                        t@,
                        c1.i as int,
                        kvv.0,
                        kvv.1,
                        ind,
                        fuel,
                        d0,
                        diags@,
                        v0,
                        values@,
                        Err::<Cur, FatalError>(
                            FatalError { pos: Pos { line: c5.line, col: c5.col, offset: c5.i } },
                        ),
                    ) by {
                        assert(diags_view(diags@) =~= diags_view(d0) + spec_entries_cont(
                            self.style,
                            t@,
                            c1.i as int,
                            kvv.0,
                            kvv.1,
                            ind,
                            fuel,
                        ).1);
                    }
                }
                Err(FatalError { pos: pos_of(c5) })
            }
        } else {
            let c5 = self.parse_indentation(t, c4, indent + 1, diags, true);
            let ghost idn = spec_indentation(self.style, t@, c4.i as int, ind + 1, true);
            proof {
                assert(diags@.subrange(0, old(diags)@.len() as int) =~= old(diags)@);
                assert(diags_view(diags@) =~= diags_view(d0) + ms.1 + nl.1 + idn.1);
            }
            let ghost dind = diags@;
            let r = self.parse_entries(t, c5, indent, diags, values);
            proof {
                assert(diags@.subrange(0, old(diags)@.len() as int) =~= old(diags)@);
                lemma_cont_recurse(
                    self.style,
                    t@,
                    c1.i as int,
                    kvv.0,
                    kvv.1,
                    ind,
                    d0,
                    dind,
                    diags@,
                    v0,
                    values@,
                    c5.i as int,
                    r,
                );
            }
            r
        }
    }

    /// Parse one object: `{`, an optional body, `}`. Line breaks,
    /// indentation and key order are checked along the way and never stop
    /// the parse; a missing brace, colon, quote or value does. The
    /// result, the tree and the diagnostics are exactly what the mirror
    /// `spec_object` says of the style and the text.
    #[verifier::rlimit(100)]
    #[verifier::spinoff_prover]
    pub fn parse_object(&self, t: &Vec<char>, c: Cur, indent: u64, diags: &mut Vec<Diag>) -> (r:
        Result<(Cur, JsonObject), FatalError>)
        requires
            cur_wf(t@, c),
            indent as int <= c.i as int,
        ensures
            diags_extend(old(diags)@, final(diags)@),
            self.style is IGNORE ==> final(diags)@ == old(diags)@,
            match r {
                Ok((c2, o)) => {
                    &&& cur_wf(t@, c2)
                    &&& c2.i > c.i
                    &&& c.i < t@.len() && t@[c.i as int] == '{'
                    &&& o.start.offset == c.i + 1
                    &&& o.end.offset == c2.i
                },
                Err(_) => true,
            },
            forall|fuel: nat|
                fuel > 2 * (t@.len() - c.i) + 1 ==> #[trigger] object_obligation(
                    self.style,
                    t@,
                    c.i as int,
                    indent as int,
                    fuel,
                    old(diags)@,
                    final(diags)@,
                    r,
                ),
        decreases t@.len() - c.i, 1int,
    {
        let ghost d0 = diags@;
        let ghost i0 = c.i as int;
        let ghost ind = indent as int;
        if c.i >= t.len() || t[c.i] != '{' {
            proof {
                assert forall|fuel: nat|
                    fuel > 2 * (t@.len() - i0) + 1 implies object_obligation(
                    self.style,
                    t@,
                    i0,
                    ind,
                    fuel,
                    d0,
                    diags@,
                    Err::<(Cur, JsonObject), FatalError>(
                        FatalError { pos: Pos { line: c.line, col: c.col, offset: c.i } },
                    ),
                ) by {
                    assert(diags_view(diags@) =~= diags_view(d0) + spec_object(
                        self.style,
                        t@,
                        i0,
                        ind,
                        fuel,
                    ).1);
                }
            }
            return Err(FatalError { pos: pos_of(c) });
        }
        let c1 = advance(t, c);
        let start = pos_of(c1);
        let ghost nl = spec_new_line(self.style, t@, c1.i as int);
        let c2 = match self.parse_new_line(t, c1, diags) {
            Ok(cx) => {
                proof {
                    assert(diags_view(diags@) =~= diags_view(d0) + nl.1);
                }
                cx
            },
            Err(e) => {
                proof {
                    assert forall|fuel: nat|
                        fuel > 2 * (t@.len() - i0) + 1 implies object_obligation(
                        self.style,
                        t@,
                        i0,
                        ind,
                        fuel,
                        d0,
                        diags@,
                        Err::<(Cur, JsonObject), FatalError>(e),
                    ) by {
                        assert(diags_view(diags@) =~= diags_view(d0) + spec_object(
                            self.style,
                            t@,
                            i0,
                            ind,
                            fuel,
                        ).1);
                    }
                }
                return Err(e);
            },
        };
        let ghost dnl = diags@;
        let c3 = self.parse_indentation(t, c2, indent, diags, false);
        let ghost id1 = spec_indentation(self.style, t@, c2.i as int, ind, false);
        proof {
            assert(diags_view(diags@) =~= diags_view(d0) + nl.1 + id1.1);
        }
        if c3.i < t.len() && t[c3.i] == '}' {
            let c4 = advance(t, c3);
            let end = pos_of(c4);
            let o = JsonObject { values: Vec::new(), start, end };
            proof {
                crate::parser::model::lemma_view_entries_index(o.values@);
                assert forall|fuel: nat|
                    fuel > 2 * (t@.len() - i0) + 1 implies object_obligation(
                    self.style,
                    t@,
                    i0,
                    ind,
                    fuel,
                    d0,
                    diags@,
                    Ok::<(Cur, JsonObject), FatalError>((c4, o)),
                ) by {
                    assert(diags_view(diags@) =~= diags_view(d0) + spec_object(
                        self.style,
                        t@,
                        i0,
                        ind,
                        fuel,
                    ).1);
                    assert(view_entries(o.values@) =~= Seq::<(Seq<char>, VNode)>::empty());
                }
            }
            Ok((c4, o))
        } else {
            let ghost did1 = diags@;
            let c4 = self.parse_indentation(t, c3, 1, diags, true);
            let ghost id2 = spec_indentation(self.style, t@, c3.i as int, 1, true);
            proof {
                assert(diags_view(diags@) =~= diags_view(d0) + nl.1 + id1.1 + id2.1);
            }
            let mut values: Vec<(JsonString, JsonType)> = Vec::new();
            let ghost dpre = diags@;
            let re = self.parse_entries(t, c4, indent, diags, &mut values);
            match re {
                Ok(c5) => {
                    let end = pos_of(c5);
                    let o = JsonObject { values, start, end };
                    proof {
                        assert forall|fuel: nat|
                            fuel > 2 * (t@.len() - i0) + 1 implies object_obligation(
                            self.style,
                            t@,
                            i0,
                            ind,
                            fuel,
                            d0,
                            diags@,
                            Ok::<(Cur, JsonObject), FatalError>((c5, o)),
                        ) by {
                            assert(entries_obligation(
                                self.style,
                                t@,
                                c4.i as int,
                                ind,
                                (fuel - 1) as nat,
                                dpre,
                                diags@,
                                Seq::<(JsonString, JsonType)>::empty(),
                                o.values@,
                                Ok::<Cur, FatalError>(c5),
                            ));
                            let st = spec_entries(
                                self.style,
                                t@,
                                c4.i as int,
                                ind,
                                None,
                                (fuel - 1) as nat,
                            );
                            assert(prev_of(Seq::<(JsonString, JsonType)>::empty()) is None);
                            crate::parser::model::lemma_view_entries_index(
                                Seq::<(JsonString, JsonType)>::empty(),
                            );
                            assert(view_entries(Seq::<(JsonString, JsonType)>::empty())
                                =~= Seq::<(Seq<char>, VNode)>::empty());
                            let stv = st.0->0;
                            assert(view_entries(o.values@) =~= stv.1);
                            assert(diags_view(diags@) =~= diags_view(d0) + spec_object(
                                self.style,
                                t@,
                                i0,
                                ind,
                                fuel,
                            ).1);
                        }
                    }
                    Ok((c5, o))
                },
                Err(e) => {
                    proof {
                        assert forall|fuel: nat|
                            fuel > 2 * (t@.len() - i0) + 1 implies object_obligation(
                            self.style,
                            t@,
                            i0,
                            ind,
                            fuel,
                            d0,
                            diags@,
                            Err::<(Cur, JsonObject), FatalError>(e),
                        ) by {
                            assert(entries_obligation(
                                self.style,
                                t@,
                                c4.i as int,
                                ind,
                                (fuel - 1) as nat,
                                dpre,
                                diags@,
                                Seq::<(JsonString, JsonType)>::empty(),
                                values@,
                                Err::<Cur, FatalError>(e),
                            ));
                            assert(prev_of(Seq::<(JsonString, JsonType)>::empty()) is None);
                            assert(diags_view(diags@) =~= diags_view(d0) + spec_object(
                                self.style,
                                t@,
                                i0,
                                ind,
                                fuel,
                            ).1);
                        }
                    }
                    Err(e)
                },
            }
        }
    }
}

/// The post-colon text in force: the configured one, or a single space.
pub open spec fn pc_text(pc: Option<String>) -> Seq<char> {
    match pc {
        Some(s) => s@,
        None => " "@,
    }
}

/// What a diagnostic's rule says in words, under the style in force.
/// Nothing is said under no style, which emits no diagnostics.
pub open spec fn issue_message(style: JsonStyle, issue: StyleIssue) -> Option<Seq<char>> {
    match issue {
        StyleIssue::MaybeSpace => Some("expected no whitespace here"@),
        StyleIssue::PostColon => match style {
            JsonStyle::STYLED { post_colon, .. } => Some(
                "expected \""@ + pc_text(post_colon) + "\" after the double colon"@,
            ),
            JsonStyle::IGNORE => None,
        },
        StyleIssue::PostColonTooMuch => match style {
            JsonStyle::STYLED { post_colon, .. } => Some(
                "expected ONLY \""@ + pc_text(post_colon) + "\" after the double colon"@,
            ),
            JsonStyle::IGNORE => None,
        },
        StyleIssue::Crlf => Some("expected \"\\r\\n\" at the end of a line"@),
        StyleIssue::Lf => Some("expected \"\\n\" at the end of a line"@),
        StyleIssue::NoBreak => Some("expected no linebreaks"@),
        StyleIssue::AnyBreak => Some("expected any linebreak at the end of a line"@),
        StyleIssue::CrButNotLf => Some("expected \"\\n\" after \"\\r\""@),
        StyleIssue::NotEnoughIndentation => Some("expected less indentation"@),
        StyleIssue::TooMuchIndentation => Some("expected less indentation"@),
        StyleIssue::Sorting => Some("expected the key to be greater than its predecessor"@),
    }
}

/// The full positioned message of a diagnostic.
pub open spec fn full_message(style: JsonStyle, d: Diag) -> Option<Seq<char>> {
    match issue_message(style, d.issue) {
        Some(m) => Some(
            "In line "@ + crate::util::dec_str(d.pos.line as nat) + " at offset "@
                + crate::util::dec_str(d.pos.col as nat) + ", I "@ + m,
        ),
        None => None,
    }
}

/// Put a diagnostic's rule into words, under the style in force.
pub fn context_to_message(style: &JsonStyle, issue: StyleIssue) -> (r: Option<String>)
    ensures
        match issue_message(*style, issue) {
            Some(m) => r matches Some(s) && s@ == m,
            None => r is None,
        },
{
    match issue {
        StyleIssue::MaybeSpace => Some("expected no whitespace here".to_owned()),
        StyleIssue::PostColon => match style {
            JsonStyle::STYLED { post_colon, .. } => {
                let mut m = "expected \"".to_owned();
                match post_colon {
                    Some(p) => m.append(p.as_str()),
                    None => m.append(" "),
                }
                m.append("\" after the double colon");
                proof {
                    assert(m@ =~= issue_message(*style, issue)->0);
                }
                Some(m)
            },
            JsonStyle::IGNORE => None,
        },
        StyleIssue::PostColonTooMuch => match style {
            JsonStyle::STYLED { post_colon, .. } => {
                let mut m = "expected ONLY \"".to_owned();
                match post_colon {
                    Some(p) => m.append(p.as_str()),
                    None => m.append(" "),
                }
                m.append("\" after the double colon");
                proof {
                    assert(m@ =~= issue_message(*style, issue)->0);
                }
                Some(m)
            },
            JsonStyle::IGNORE => None,
        },
        StyleIssue::Crlf => Some("expected \"\\r\\n\" at the end of a line".to_owned()),
        StyleIssue::Lf => Some("expected \"\\n\" at the end of a line".to_owned()),
        StyleIssue::NoBreak => Some("expected no linebreaks".to_owned()),
        StyleIssue::AnyBreak => Some("expected any linebreak at the end of a line".to_owned()),
        StyleIssue::CrButNotLf => Some("expected \"\\n\" after \"\\r\"".to_owned()),
        StyleIssue::NotEnoughIndentation => Some("expected less indentation".to_owned()),
        StyleIssue::TooMuchIndentation => Some("expected less indentation".to_owned()),
        StyleIssue::Sorting => Some(
            "expected the key to be greater than its predecessor".to_owned(),
        ),
    }
}

/// Render one diagnostic as the position it cites and a full sentence
/// naming the line, the column and the rule.
pub fn generate_error_message(style: &JsonStyle, d: &Diag) -> (r: Option<(Pos, String)>)
    ensures
        match full_message(*style, *d) {
            Some(m) => r matches Some(pm) && pm.0 == d.pos && pm.1@ == m,
            None => r is None,
        },
        (style matches JsonStyle::STYLED { .. }) ==> r is Some,
{
    match context_to_message(style, d.issue) {
        Some(msg) => {
            let line_s = crate::util::usize_to_dec_string(d.pos.line);
            let col_s = crate::util::usize_to_dec_string(d.pos.col);
            let mut m = "In line ".to_owned();
            m.append(line_s.as_str());
            m.append(" at offset ");
            m.append(col_s.as_str());
            m.append(", I ");
            m.append(msg.as_str());
            proof {
                assert(m@ =~= full_message(*style, *d)->0);
            }
            Some((d.pos, m))
        },
        None => None,
    }
}

impl Parser {
    /// Parse a whole text: the root object, with anything after it left
    /// alone. The parse succeeds exactly when the mirror `spec_parse`
    /// derives an object under the style's recovery rules; the tree and
    /// the diagnostics are then exactly the mirror's, each diagnostic
    /// rendered as the position it cites and the full sentence for its
    /// rule. Under no style there is never a diagnostic.
    pub fn parse(&self, s: &str) -> (r: Result<(JsonObject, Vec<(Pos, String)>), FatalError>)
        ensures
            match r {
                Ok((o, msgs)) => {
                    let (res, ds) = spec_parse(self.style, s@);
                    &&& match res {
                        Some((i2, es)) => view_entries(o.values@) == es,
                        None => false,
                    }
                    &&& o.start.offset == 1
                    &&& msgs@.len() == ds.len()
                    &&& forall|k: int|
                        0 <= k < ds.len() ==> (#[trigger] msgs@[k]).0.offset == ds[k].0
                            && msgs@[k].1@ == full_message(
                            self.style,
                            Diag { pos: msgs@[k].0, issue: ds[k].1 },
                        )->0
                    &&& (self.style is IGNORE ==> msgs@.len() == 0)
                },
                Err(_) => spec_parse(self.style, s@).0 is None,
            },
    {
        let t = crate::util::str_to_chars(s);
        let mut diags: Vec<Diag> = Vec::new();
        let c0 = cur_start();
        let ro = self.parse_object(&t, c0, 0, &mut diags);
        let (_, o) = match ro {
            Ok(x) => x,
            Err(e) => {
                proof {
                    assert(object_obligation(
                        self.style,
                        t@,
                        0,
                        0,
                        (2 * t@.len() + 2) as nat,
                        Seq::empty(),
                        diags@,
                        Err::<(Cur, JsonObject), FatalError>(e),
                    ));
                }
                return Err(e);
            },
        };
        proof {
            assert(object_obligation(
                self.style,
                t@,
                0,
                0,
                (2 * t@.len() + 2) as nat,
                Seq::empty(),
                diags@,
                Ok::<(Cur, JsonObject), FatalError>((ro->Ok_0.0, o)),
            ));
            lemma_diags_view_index(diags@);
            lemma_diags_view_index(Seq::empty());
            assert(diags_view(diags@) =~= spec_parse(self.style, s@).1);
        }
        let ghost ds = spec_parse(self.style, s@).1;
        let mut msgs: Vec<(Pos, String)> = Vec::new();
        let mut k: usize = 0;
        while k < diags.len()
            invariant
                self.style is IGNORE ==> diags@.len() == 0,
                k <= diags@.len(),
                ds == diags_view(diags@),
                ds.len() == diags@.len(),
                forall|m: int|
                    0 <= m < diags@.len() ==> #[trigger] diags_view(diags@)[m] == (
                        diags@[m].pos.offset as int,
                        diags@[m].issue,
                    ),
                msgs@.len() == k,
                forall|m: int|
                    0 <= m < k ==> (#[trigger] msgs@[m]).0.offset == ds[m].0 && msgs@[m].1@
                        == full_message(
                        self.style,
                        Diag { pos: msgs@[m].0, issue: ds[m].1 },
                    )->0,
            decreases diags@.len() - k,
        {
            match generate_error_message(&self.style, &diags[k]) {
                Some(pm) => {
                    proof {
                        let ghost dk = diags@[k as int];
                        assert(Diag { pos: pm.0, issue: dk.issue } == dk);
                    }
                    msgs.push(pm);
                },
                None => {
                    proof {
                        assert(false);
                    }
                },
            }
            k += 1;
        }
        Ok((o, msgs))
    }
}

/// The issue a failed line-break check cites.
fn nl_issue_exec(le: LineEnding) -> (r: StyleIssue)
    ensures
        r == nl_issue(le),
{
    match le {
        LineEnding::CRLF => StyleIssue::Crlf,
        LineEnding::LF => StyleIssue::Lf,
        LineEnding::NONE => StyleIssue::NoBreak,
        LineEnding::ANY => StyleIssue::AnyBreak,
        LineEnding::IGNORE => StyleIssue::CrButNotLf,
    }
}

} // verus!
