//! The file-style check: parse one file under the configured style,
//! turning each style diagnostic into a printable report with its source
//! context, and a structural fault into one error.

use vstd::prelude::*;

verus! {

use vstd::string::StringExecFns;
use crate::checks::entry_parity::clamp_line;
use crate::io::LoadedFile;
use crate::parser::model::{view_entries, JsonObject, JsonStyle, Pos};
use crate::parser::parser::{full_message, spec_parse, Diag, Parser, StyleIssue};
use crate::util::{dec_str, print_lines, spec_print_lines};

fn line_clamped(n: usize) -> (r: u32)
    ensures
        r as int == clamp_line(n as int),
{
    if n > u32::MAX as usize {
        u32::MAX
    } else {
        n as u32
    }
}

/// The report for one style diagnostic: the tag, the rule's sentence, the
/// file, and the context window around the cited line.
pub open spec fn style_report(
    style: JsonStyle,
    p: Pos,
    issue: StyleIssue,
    path: Seq<char>,
    content: Seq<char>,
) -> Seq<char> {
    "[STYLE] "@ + full_message(style, Diag { pos: p, issue })->0 + "\n "@ + path + "\n"@
        + spec_print_lines(clamp_line(p.line as int), clamp_line(p.line as int), content)
}

/// Whether a text is the style report for the given rule at the given
/// offset, whatever line and column the position carries.
pub open spec fn is_style_report(
    msg: Seq<char>,
    style: JsonStyle,
    off: int,
    issue: StyleIssue,
    path: Seq<char>,
    content: Seq<char>,
) -> bool {
    exists|p: Pos| p.offset == off && msg == style_report(style, p, issue, path, content)
}

/// Whether a text is the report of some structural fault.
pub open spec fn is_error_report(msg: Seq<char>) -> bool {
    exists|p: Pos| msg == error_report(p)
}

/// The report for a structural fault: the tag and the cited place.
pub open spec fn error_report(p: Pos) -> Seq<char> {
    "[ERROR] Cannot parse json\nIn line "@ + dec_str(p.line as nat) + " at offset "@ + dec_str(
        p.col as nat,
    )
}

/// Parse one file under the style. The parse succeeds exactly when the
/// parser's mirror derives an object from the file's text; the tree then
/// comes back, and one report per style diagnostic is pushed behind the
/// errors already collected, in diagnostic order, each citing the rule,
/// the file and the offending line. A structural fault pushes exactly one
/// error and returns no tree.
pub fn file_style(style: &JsonStyle, file: &LoadedFile, errors: &mut Vec<String>) -> (r: Result<
    JsonObject,
    (),
>)
    ensures
        old(errors)@.len() <= final(errors)@.len(),
        final(errors)@.subrange(0, old(errors)@.len() as int) == old(errors)@,
        r is Ok <==> spec_parse(*style, file.1@).0 is Some,
        match r {
            Ok(o) => {
                let (res, ds) = spec_parse(*style, file.1@);
                &&& match res {
                    Some((i2, es)) => view_entries(o.values@) == es,
                    None => false,
                }
                &&& final(errors)@.len() == old(errors)@.len() + ds.len()
                &&& forall|k: int|
                    0 <= k < ds.len() ==> is_style_report(
                        (#[trigger] final(errors)@[old(errors)@.len() + k])@,
                        *style,
                        ds[k].0,
                        ds[k].1,
                        file.0@,
                        file.1@,
                    )
            },
            Err(_) => final(errors)@.len() == old(errors)@.len() + 1 && is_error_report(
                final(errors)@.last()@,
            ),
        },
        style is IGNORE && r is Ok ==> final(errors)@.len() == old(errors)@.len(),
{
    let parser = Parser::new(style.clone());
    match parser.parse(file.content().as_str()) {
        Ok((json, style_errors)) => {
            let ghost ds = spec_parse(*style, file.1@).1;
            let mut k: usize = 0;
            while k < style_errors.len()
                invariant
                    0 <= k <= style_errors@.len(),
                    style_errors@.len() == ds.len(),
                    forall|m: int|
                        0 <= m < ds.len() ==> (#[trigger] style_errors@[m]).0.offset == ds[m].0
                            && style_errors@[m].1@ == full_message(
                            *style,
                            Diag { pos: style_errors@[m].0, issue: ds[m].1 },
                        )->0,
                    errors@.len() == old(errors)@.len() + k,
                    errors@.subrange(0, old(errors)@.len() as int) =~= old(errors)@,
                    forall|m: int|
                        0 <= m < k ==> is_style_report(
                            (#[trigger] errors@[old(errors)@.len() + m])@,
                            *style,
                            ds[m].0,
                            ds[m].1,
                            file.0@,
                            file.1@,
                        ),
                decreases style_errors@.len() - k,
            {
                let (pos, text) = &style_errors[k];
                let mut m = "[STYLE] ".to_owned();
                m.append(text.as_str());
                m.append("\n ");
                m.append(file.path().as_str());
                m.append("\n");
                let line = line_clamped(pos.line);
                let ctx = print_lines(line..line, file.content().as_str());
                m.append(ctx.as_str());
                proof {
                    assert(m@ =~= style_report(
                        *style,
                        style_errors@[k as int].0,
                        ds[k as int].1,
                        file.0@,
                        file.1@,
                    ));
                }
                errors.push(m);
                proof {
                    assert(errors@.subrange(0, old(errors)@.len() as int) =~= old(errors)@);
                    let p = style_errors@[k as int].0;
                    assert((errors@[old(errors)@.len() + k as int])@ == style_report(
                        *style,
                        p,
                        ds[k as int].1,
                        file.0@,
                        file.1@,
                    ));
                    assert(is_style_report(
                        (errors@[old(errors)@.len() + k as int])@,
                        *style,
                        ds[k as int].0,
                        ds[k as int].1,
                        file.0@,
                        file.1@,
                    ));
                }
                k += 1;
            }
            Ok(json)
        },
        Err(e) => {
            let mut m = "[ERROR] Cannot parse json\nIn line ".to_owned();
            let ls = crate::util::usize_to_dec_string(e.pos.line);
            m.append(ls.as_str());
            m.append(" at offset ");
            let cs = crate::util::usize_to_dec_string(e.pos.col);
            m.append(cs.as_str());
            proof {
                assert(m@ =~= error_report(e.pos));
                assert(is_error_report(m@));
            }
            errors.push(m);
            proof {
                assert(errors@.subrange(0, old(errors)@.len() as int) =~= old(errors)@);
            }
            Err(())
        },
    }
}

} // verus!
