use vstd::prelude::*;

verus! {

use vstd::string::StrSliceExecFns;

/// Collect the characters of a text into a vector, preserving order.
pub fn str_to_chars(s: &str) -> (r: Vec<char>)
    ensures
        r@ == s@,
{
    let n = s.unicode_len();
    let mut r: Vec<char> = Vec::new();
    let mut i: usize = 0;
    while i < n
        invariant
            i <= n,
            n == s@.len(),
            r@ == s@.subrange(0, i as int),
        decreases n - i,
    {
        r.push(s.get_char(i));
        assert(r@ =~= s@.subrange(0, i as int + 1));
        i += 1;
    }
    assert(r@ =~= s@);
    r
}

/// The character that writes the decimal digit `d`.
pub open spec fn digit_char_of(d: nat) -> char
    recommends
        d < 10,
{
    ((('0' as u32) + d) as char)
}

/// The decimal writing of `n`, most significant digit first.
pub open spec fn dec_str(n: nat) -> Seq<char>
    decreases n,
{
    if n < 10 {
        seq![digit_char_of(n)]
    } else {
        dec_str(n / 10).push(digit_char_of(n % 10))
    }
}

/// Relies on the Display implementation for usize: it writes the decimal
/// digits of the number, most significant first.
#[verifier::external_body]
pub fn usize_to_dec_string(n: usize) -> (r: String)
    ensures
        r@ == dec_str(n as nat),
{
    n.to_string()
}

/// Relies on String::push: it appends exactly one character at the end.
#[verifier::external_body]
pub fn push_char(s: &mut String, c: char)
    ensures
        final(s)@ == old(s)@.push(c),
{
    s.push(c);
}

/// Relies on String::pop: it removes the last character, if there is one.
#[verifier::external_body]
pub fn pop_char(s: &mut String)
    ensures
        final(s)@ == if old(s)@.len() > 0 {
            old(s)@.drop_last()
        } else {
            old(s)@
        },
{
    s.pop();
}

/// Build an owned string out of a character vector.
pub fn chars_to_string(v: &Vec<char>) -> (r: String)
    ensures
        r@ == v@,
{
    let mut r = String::new();
    let mut i: usize = 0;
    while i < v.len()
        invariant
            i <= v@.len(),
            r@ == v@.subrange(0, i as int),
        decreases v@.len() - i,
    {
        push_char(&mut r, v[i]);
        assert(r@ =~= v@.subrange(0, i as int + 1));
        i += 1;
    }
    assert(r@ =~= v@);
    r
}

/// Copy the characters of `v` between `from` (inclusive) and `to` (exclusive).
pub fn subchars(v: &Vec<char>, from: usize, to: usize) -> (r: Vec<char>)
    requires
        from <= to <= v@.len(),
    ensures
        r@ == v@.subrange(from as int, to as int),
{
    let mut r: Vec<char> = Vec::new();
    let mut i: usize = from;
    while i < to
        invariant
            from <= i <= to <= v@.len(),
            r@ == v@.subrange(from as int, i as int),
        decreases to - i,
    {
        r.push(v[i]);
        assert(r@ =~= v@.subrange(from as int, i as int + 1));
        i += 1;
    }
    r
}

/// The first index at or after `i` that holds a line break, or the end.
pub open spec fn nl_pos(t: Seq<char>, i: int) -> int
    decreases t.len() - i,
{
    if i < 0 || i >= t.len() {
        t.len() as int
    } else if t[i] == '\n' {
        i
    } else {
        nl_pos(t, i + 1)
    }
}

proof fn lemma_nl_pos(t: Seq<char>, i: int)
    requires
        0 <= i <= t.len(),
    ensures
        i <= nl_pos(t, i) <= t.len(),
    decreases t.len() - i,
{
    if i < t.len() && t[i] != '\n' {
        lemma_nl_pos(t, i + 1);
    }
}

/// One line of a text, from `i` to the next line break, without a
/// trailing carriage return.
pub open spec fn line_of(t: Seq<char>, i: int) -> Seq<char> {
    let j = nl_pos(t, i);
    let raw = t.subrange(i, j);
    if raw.len() > 0 && raw.last() == '\r' {
        raw.drop_last()
    } else {
        raw
    }
}

/// The lines of a text from index `i` on, split at line breaks, each
/// without its break; a final break ends the last line and opens no new
/// one.
pub open spec fn split_lines_from(t: Seq<char>, i: int) -> Seq<Seq<char>>
    decreases t.len() - i,
        via split_lines_from_dec
{
    if i < 0 || i >= t.len() {
        Seq::empty()
    } else {
        let j = nl_pos(t, i);
        if j + 1 <= t.len() {
            seq![line_of(t, i)] + split_lines_from(t, j + 1)
        } else {
            seq![line_of(t, i)]
        }
    }
}

#[via_fn]
proof fn split_lines_from_dec(t: Seq<char>, i: int) {
    if 0 <= i <= t.len() {
        lemma_nl_pos(t, i);
    }
}

/// Whether the 1-based line `i` falls inside the context window around
/// `[start, end]`: two lines before through two lines after.
pub open spec fn in_window(i: int, start: int, end: int) -> bool {
    i + 2 >= start && i <= end + 2
}

/// The annotated text of the window, each line under its 1-based number,
/// each followed by a line break.
pub open spec fn window_text(lines: Seq<Seq<char>>, idx: int, start: int, end: int) -> Seq<char>
    decreases lines.len(),
{
    if lines.len() == 0 {
        Seq::empty()
    } else {
        (if in_window(idx, start, end) {
            " ["@ + dec_str(idx as nat) + "]"@ + lines[0] + "\n"@
        } else {
            Seq::<char>::empty()
        }) + window_text(lines.subrange(1, lines.len() as int), idx + 1, start, end)
    }
}

/// What the annotator prints: the window's text without its final line
/// break.
pub open spec fn spec_print_lines(start: int, end: int, t: Seq<char>) -> Seq<char> {
    let w = window_text(split_lines_from(t, 0), 1, start, end);
    if w.len() > 0 {
        w.subrange(0, w.len() - 1)
    } else {
        w
    }
}

/// Split a text into its lines, without their line breaks.
fn split_lines(t: &Vec<char>) -> (r: Vec<Vec<char>>)
    ensures
        r@.len() == split_lines_from(t@, 0).len(),
        forall|k: int| 0 <= k < r@.len() ==> r@[k]@ == split_lines_from(t@, 0)[k],
{
    let ghost all = split_lines_from(t@, 0);
    let mut r: Vec<Vec<char>> = Vec::new();
    let mut i: usize = 0;
    proof {
        assert(all.subrange(0, all.len() as int) =~= all);
    }
    while i < t.len()
        invariant
            0 <= i <= t@.len(),
            all == split_lines_from(t@, 0),
            r@.len() <= all.len(),
            split_lines_from(t@, i as int) =~= all.subrange(r@.len() as int, all.len() as int),
            forall|k: int| 0 <= k < r@.len() ==> #[trigger] r@[k]@ == all[k],
        decreases t@.len() - i,
    {
        let ghost old_i = i as int;
        let ghost old_n = r@.len() as int;
        proof {
            lemma_nl_pos(t@, i as int);
        }
        let mut j: usize = i;
        while j < t.len() && t[j] != '\n'
            invariant
                i <= j <= t@.len(),
                nl_pos(t@, i as int) == nl_pos(t@, j as int),
            decreases t@.len() - j,
        {
            j += 1;
        }
        let mut line = subchars(t, i, j);
        if line.len() > 0 && line[line.len() - 1] == '\r' {
            line.pop();
            proof {
                assert(line@ =~= line_of(t@, i as int));
            }
        } else {
            proof {
                assert(line@ =~= line_of(t@, i as int));
            }
        }
        r.push(line);
        if j < t.len() {
            i = j + 1;
        } else {
            i = j;
        }
        proof {
            assert(nl_pos(t@, old_i) == j as int);
            assert(split_lines_from(t@, old_i) =~= seq![line@] + split_lines_from(t@, i as int));
            assert(split_lines_from(t@, old_i).len() >= 1);
            assert(old_n < all.len());
            assert(split_lines_from(t@, old_i)[0] == line_of(t@, old_i));
            assert(all.subrange(old_n, all.len() as int)[0] == all[old_n]);
            assert(r@[old_n]@ == all[old_n]);
            let so = split_lines_from(t@, old_i);
            assert(split_lines_from(t@, i as int) =~= so.subrange(1, so.len() as int));
            assert(so.subrange(1, so.len() as int) =~= all.subrange(old_n, all.len() as int).subrange(
                1,
                all.len() - old_n,
            ));
            assert(all.subrange(old_n, all.len() as int).subrange(1, all.len() - old_n)
                =~= all.subrange(old_n + 1, all.len() as int));
            assert(split_lines_from(t@, i as int) =~= all.subrange(
                r@.len() as int,
                all.len() as int,
            ));
        }
    }
    proof {
        assert(split_lines_from(t@, i as int).len() == 0);
    }
    r
}

/// Render the context around the given lines of a text: the lines from
/// two before the range's start through two after its end, each prefixed
/// with its 1-based number in brackets, separated by line breaks.
pub fn print_lines(display_lines: core::ops::Range<u32>, content: &str) -> (r: String)
    ensures
        r@ == spec_print_lines(display_lines.start as int, display_lines.end as int, content@),
{
    let start: u32 = display_lines.start;
    let end: u32 = display_lines.end;
    let t = str_to_chars(content);
    let lines = split_lines(&t);
    let mut out: Vec<char> = Vec::new();
    let mut k: usize = 0;
    let ghost all = split_lines_from(t@, 0);
    proof {
        assert(all.subrange(0, all.len() as int) =~= all);
        assert(out@ + window_text(all, 1, start as int, end as int) =~= window_text(
            all,
            1,
            start as int,
            end as int,
        ));
    }
    while k < lines.len()
        invariant
            0 <= k <= lines@.len(),
            lines@.len() == all.len(),
            forall|m: int| 0 <= m < all.len() ==> #[trigger] lines@[m]@ == all[m],
            out@ + window_text(
                all.subrange(k as int, all.len() as int),
                k + 1,
                start as int,
                end as int,
            ) =~= window_text(all, 1, start as int, end as int),
        decreases lines@.len() - k,
    {
        let ghost rem = all.subrange(k as int, all.len() as int);
        let ghost opre = out@;
        let lo_ok: bool = if (start as u64) <= 3 {
            true
        } else {
            (k as u64) >= (start as u64) - 3
        };
        let hi_ok: bool = (k as u64) <= (end as u64) + 1;
        let within = lo_ok && hi_ok;
        proof {
            assert(within == in_window(k as int + 1, start as int, end as int));
        }
        if within {
            out.push(' ');
            out.push('[');
            proof {
                reveal_strlit(" [");
                assert(out@ =~= opre + " ["@);
            }
            let num = usize_to_dec_string(k + 1);
            let nv = str_to_chars(num.as_str());
            let mut d: usize = 0;
            proof {
                assert(nv@.subrange(0, 0) =~= Seq::<char>::empty());
                assert(out@ =~= opre + " ["@ + nv@.subrange(0, 0));
            }
            while d < nv.len()
                invariant
                    0 <= d <= nv@.len(),
                    nv@ == dec_str((k + 1) as nat),
                    out@ == opre + " ["@ + nv@.subrange(0, d as int),
                decreases nv@.len() - d,
            {
                out.push(nv[d]);
                proof {
                    assert(out@ =~= opre + " ["@ + nv@.subrange(0, d as int + 1));
                }
                d += 1;
            }
            out.push(']');
            proof {
                reveal_strlit("]");
                assert(nv@.subrange(0, nv@.len() as int) =~= nv@);
                assert(out@ =~= opre + " ["@ + dec_str((k + 1) as nat) + "]"@);
            }
            let line = &lines[k];
            let ghost omid = out@;
            let mut c: usize = 0;
            proof {
                assert(line@.subrange(0, 0) =~= Seq::<char>::empty());
                assert(out@ =~= omid + line@.subrange(0, 0));
            }
            while c < line.len()
                invariant
                    0 <= c <= line@.len(),
                    out@ == omid + line@.subrange(0, c as int),
                decreases line@.len() - c,
            {
                out.push(line[c]);
                proof {
                    assert(out@ =~= omid + line@.subrange(0, c as int + 1));
                }
                c += 1;
            }
            out.push('\n');
            proof {
                reveal_strlit("\n");
                assert(line@.subrange(0, line@.len() as int) =~= line@);
                assert(out@ =~= opre + (" ["@ + dec_str((k + 1) as nat) + "]"@ + line@ + "\n"@));
            }
        }
        proof {
            assert(rem[0] == all[k as int]);
            assert(lines@[k as int]@ == all[k as int]);
            assert(rem.subrange(1, rem.len() as int) =~= all.subrange(
                k as int + 1,
                all.len() as int,
            ));
            assert(out@ + window_text(
                all.subrange(k as int + 1, all.len() as int),
                k + 2,
                start as int,
                end as int,
            ) =~= window_text(all, 1, start as int, end as int));
        }
        k += 1;
    }
    proof {
        assert(all.subrange(k as int, all.len() as int).len() == 0);
        assert(out@ =~= window_text(all, 1, start as int, end as int));
    }
    if out.len() > 0 {
        out.pop();
        proof {
            assert(out@ =~= spec_print_lines(start as int, end as int, content@));
        }
    } else {
        proof {
            assert(out@ =~= spec_print_lines(start as int, end as int, content@));
        }
    }
    chars_to_string(&out)
}

} // verus!
