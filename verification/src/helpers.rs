//! Text processing and viewport utilities.

use vstd::prelude::*;
use vstd::string::StrSliceExecFns;
use vstd::string::StringExecFns;
use vstd::string::StringSliceAdditionalSpecFns;
use vstd::utf8::is_char_boundary;

use crate::textspec::{
    spec_apply_backspaces, spec_apply_change, spec_bel_strip, spec_clamp_line, spec_clean_text,
    spec_count_char, spec_cr_resolve, spec_csi_strip, spec_dec, spec_digit, spec_escape_char,
    spec_escape_sed, spec_fenced_block, spec_first_osc_term, spec_is_csi_final,
    spec_is_csi_inter, spec_is_csi_param, spec_is_ws, spec_join, spec_last_nonempty,
    spec_line_numbered, spec_lower, spec_lower_char, spec_map_segments,
    spec_normalize_newlines, spec_normalize_terminal, spec_numbered_rows, spec_osc_strip,
    spec_osc_tail_strip, spec_pad6, spec_run_end, spec_spaces, spec_split, spec_trim_end,
    spec_unescape,
};

verus! {

/// Viewport with start and end line numbers (1-based, inclusive).
/// The viewport is empty when `end < start`.
#[derive(Debug, Clone, Copy, PartialEq, Eq, Structural)]
pub struct Viewport {
    pub start: usize,
    pub end: usize,
}

/// Compute a viewport centered around a given line, clamped to `[1, total_lines]`.
/// A file with no lines yields the canonical empty viewport `{1, 0}`.
pub fn serialize_compute_viewport(total_lines: usize, center_line: usize, radius: usize) -> (vp:
    Viewport)
    ensures
        total_lines == 0 ==> vp.start == 1 && vp.end == 0,
        total_lines > 0 ==> vp.start == (if center_line - radius > 1 {
            center_line - radius
        } else {
            1
        }),
        total_lines > 0 ==> vp.end == (if center_line + radius < total_lines {
            center_line + radius
        } else {
            total_lines as int
        }),
{
    if total_lines == 0 {
        return Viewport { start: 1, end: 0 };
    }
    let lo = center_line.saturating_sub(radius);
    let start: usize = if lo > 1 { lo } else { 1 };
    let hi = center_line.saturating_add(radius);
    let end: usize = if hi < total_lines { hi } else { total_lines };
    Viewport { start, end }
}

/// Find the largest byte index `r <= index` of `s` that lies on a UTF-8
/// character boundary (or the byte length of `s` when `index` is past the end).
///
/// Inbound offsets and lengths are treated as codepoint counts throughout the
/// library; this helper defends against hosts that instead supply indices in
/// other units, by never slicing inside a multi-byte character.
pub fn floor_char_boundary(s: &str, index: usize) -> (r: usize)
    ensures
        index >= s.spec_bytes().len() ==> r == s.spec_bytes().len(),
        index < s.spec_bytes().len() ==> {
            &&& r <= index
            &&& is_char_boundary(s.spec_bytes(), r as int)
            &&& forall|k: int| r < k <= index ==> !is_char_boundary(s.spec_bytes(), k)
        },
{
    proof {
        vstd::utf8::encode_utf8_valid_utf8(s@);
    }
    let n = s.as_bytes().len();
    if index >= n {
        n
    } else if s.is_char_boundary(index) {
        index
    } else {
        let mut i = index;
        while i > 0 && !s.is_char_boundary(i)
            invariant
                i <= index,
                index < s.spec_bytes().len(),
                vstd::utf8::valid_utf8(s.spec_bytes()),
                forall|k: int| i < k <= index ==> !is_char_boundary(s.spec_bytes(), k),
            decreases i,
        {
            i = i - 1;
        }
        proof {
            if i == 0 {
                assert(is_char_boundary(s.spec_bytes(), 0));
            }
        }
        i
    }
}

/// Append the character `s[i]` to `out`.
fn append_char_of(out: &mut String, s: &str, i: usize, n: usize)
    requires
        n == s@.len(),
        i < n,
    ensures
        final(out)@ == old(out)@ + seq![s@[i as int]],
{
    let piece = s.substring_char(i, i + 1);
    proof {
        assert(s@.subrange(i as int, i as int + 1) =~= seq![s@[i as int]]);
    }
    out.append(piece);
}

/// Whether `c` is a Unicode whitespace character.
fn is_ws_exec(c: char) -> (b: bool)
    ensures
        b == spec_is_ws(c),
{
    let u = c as u32;
    u == 0x0009 || u == 0x000A || u == 0x000B || u == 0x000C || u == 0x000D || u == 0x0020
        || u == 0x0085 || u == 0x00A0 || u == 0x1680 || (0x2000 <= u && u <= 0x200A)
        || u == 0x2028 || u == 0x2029 || u == 0x202F || u == 0x205F || u == 0x3000
}

/// Translate the escape sequences `\n` and `\r` into real control characters.
pub(crate) fn unescape(s: &str) -> (r: String)
    ensures
        r@ == spec_unescape(s@),
{
    let n = s.unicode_len();
    let mut out = String::new();
    let mut i: usize = 0;
    proof {
        assert(s@.skip(0) =~= s@);
        assert(out@ + spec_unescape(s@) =~= spec_unescape(s@));
    }
    while i < n
        invariant
            i <= n,
            n == s@.len(),
            spec_unescape(s@) == out@ + spec_unescape(s@.skip(i as int)),
        decreases n - i,
    {
        let c = s.get_char(i);
        if c == '\\' && i + 1 < n && (s.get_char(i + 1) == 'n' || s.get_char(i + 1) == 'r') {
            let c1 = s.get_char(i + 1);
            if c1 == 'n' {
                out.append("\n");
                proof {
                    reveal_strlit("\n");
                }
            } else {
                out.append("\r");
                proof {
                    reveal_strlit("\r");
                }
            }
            proof {
                assert(s@.skip(i as int).skip(2) =~= s@.skip(i as int + 2));
            }
            i = i + 2;
        } else {
            append_char_of(&mut out, s, i, n);
            proof {
                assert(s@.skip(i as int).skip(1) =~= s@.skip(i as int + 1));
            }
            i = i + 1;
        }
    }
    proof {
        assert(s@.skip(n as int) =~= Seq::<char>::empty());
    }
    out
}

/// Replace CRLF pairs and lone CR characters with LF.
fn normalize_newlines(s: &str) -> (r: String)
    ensures
        r@ == spec_normalize_newlines(s@),
{
    let n = s.unicode_len();
    let mut out = String::new();
    let mut i: usize = 0;
    proof {
        assert(s@.skip(0) =~= s@);
        assert(out@ + spec_normalize_newlines(s@) =~= spec_normalize_newlines(s@));
    }
    while i < n
        invariant
            i <= n,
            n == s@.len(),
            spec_normalize_newlines(s@) == out@ + spec_normalize_newlines(s@.skip(i as int)),
        decreases n - i,
    {
        let c = s.get_char(i);
        if c == '\r' {
            out.append("\n");
            proof {
                reveal_strlit("\n");
            }
            if i + 1 < n && s.get_char(i + 1) == '\n' {
                proof {
                    assert(s@.skip(i as int).skip(2) =~= s@.skip(i as int + 2));
                }
                i = i + 2;
            } else {
                proof {
                    assert(s@.skip(i as int).skip(1) =~= s@.skip(i as int + 1));
                }
                i = i + 1;
            }
        } else {
            append_char_of(&mut out, s, i, n);
            proof {
                assert(s@.skip(i as int).skip(1) =~= s@.skip(i as int + 1));
            }
            i = i + 1;
        }
    }
    proof {
        assert(s@.skip(n as int) =~= Seq::<char>::empty());
    }
    out
}

/// Remove trailing whitespace characters.
fn trim_end_ws(s: &str) -> (r: String)
    ensures
        r@ == spec_trim_end(s@),
{
    let n = s.unicode_len();
    let mut j = n;
    proof {
        assert(s@.take(n as int) =~= s@);
    }
    while j > 0 && is_ws_exec(s.get_char(j - 1))
        invariant
            j <= n,
            n == s@.len(),
            spec_trim_end(s@) == spec_trim_end(s@.take(j as int)),
        decreases j,
    {
        proof {
            assert(s@.take(j as int).drop_last() =~= s@.take(j as int - 1));
        }
        j = j - 1;
    }
    let r = s.substring_char(0, j).to_owned();
    proof {
        assert(s@.take(j as int) =~= s@.subrange(0, j as int));
    }
    r
}

/// Clean text by normalizing line endings to LF and trimming trailing
/// whitespace (including trailing newlines).
pub fn clean_text(text: &str) -> (r: String)
    ensures
        r@ == spec_clean_text(text@),
{
    let normalized = normalize_newlines(text);
    trim_end_ws(normalized.as_str())
}

/// ASCII-lowercase a string: letters A-Z are shifted, all other characters
/// are kept as they are.
fn lower_ascii(s: &str) -> (r: String)
    ensures
        r@ == spec_lower(s@),
{
    let n = s.unicode_len();
    let mut out = String::new();
    let mut i: usize = 0;
    while i < n
        invariant
            i <= n,
            n == s@.len(),
            out@ == spec_lower(s@.take(i as int)),
        decreases n - i,
    {
        let c = s.get_char(i);
        let u = c as u32;
        if 0x41 <= u && u <= 0x5A {
            match c {
                'A' => out.append("a"),
                'B' => out.append("b"),
                'C' => out.append("c"),
                'D' => out.append("d"),
                'E' => out.append("e"),
                'F' => out.append("f"),
                'G' => out.append("g"),
                'H' => out.append("h"),
                'I' => out.append("i"),
                'J' => out.append("j"),
                'K' => out.append("k"),
                'L' => out.append("l"),
                'M' => out.append("m"),
                'N' => out.append("n"),
                'O' => out.append("o"),
                'P' => out.append("p"),
                'Q' => out.append("q"),
                'R' => out.append("r"),
                'S' => out.append("s"),
                'T' => out.append("t"),
                'U' => out.append("u"),
                'V' => out.append("v"),
                'W' => out.append("w"),
                'X' => out.append("x"),
                'Y' => out.append("y"),
                _ => out.append("z"),
            }
            proof {
                reveal_strlit("a");
                reveal_strlit("b");
                reveal_strlit("c");
                reveal_strlit("d");
                reveal_strlit("e");
                reveal_strlit("f");
                reveal_strlit("g");
                reveal_strlit("h");
                reveal_strlit("i");
                reveal_strlit("j");
                reveal_strlit("k");
                reveal_strlit("l");
                reveal_strlit("m");
                reveal_strlit("n");
                reveal_strlit("o");
                reveal_strlit("p");
                reveal_strlit("q");
                reveal_strlit("r");
                reveal_strlit("s");
                reveal_strlit("t");
                reveal_strlit("u");
                reveal_strlit("v");
                reveal_strlit("w");
                reveal_strlit("x");
                reveal_strlit("y");
                reveal_strlit("z");
                assert(s@.take(i as int + 1).drop_last() =~= s@.take(i as int));
            }
        } else {
            append_char_of(&mut out, s, i, n);
            proof {
                assert(s@.take(i as int + 1).drop_last() =~= s@.take(i as int));
            }
        }
        i = i + 1;
    }
    proof {
        assert(s@.take(n as int) =~= s@);
    }
    out
}

/// Create a fenced code block with an optional language tag (lowercased).
pub fn fenced_block(language: Option<&str>, content: &str) -> (r: String)
    ensures
        r@ == spec_fenced_block(
            match language {
                Some(l) => Some(l@),
                None => None,
            },
            content@,
        ),
{
    let mut out = String::from_str("```");
    proof {
        reveal_strlit("```");
        reveal_strlit("\n");
        reveal_strlit("\n```\n");
        assert("```"@ =~= seq!['`', '`', '`']);
        assert("\n"@ =~= seq!['\n']);
        assert("\n```\n"@ =~= seq!['\n', '`', '`', '`', '\n']);
    }
    match language {
        Some(l) => {
            let low = lower_ascii(l);
            out.append(low.as_str());
        },
        None => {
            proof {
                assert(spec_lower(Seq::<char>::empty()) =~= Seq::<char>::empty());
            }
        },
    }
    out.append("\n");
    out.append(content);
    out.append("\n```\n");
    out
}

/// Apply backspace characters: each one erases the previous surviving
/// character.
pub fn apply_backspaces(text: &str) -> (r: String)
    ensures
        r@ == spec_apply_backspaces(text@),
{
    let n = text.unicode_len();
    let mut keep: Vec<usize> = Vec::new();
    let mut i: usize = 0;
    while i < n
        invariant
            i <= n,
            n == text@.len(),
            forall|k: int| 0 <= k < keep@.len() ==> keep@[k] < n,
            keep@.map_values(|j: usize| text@[j as int]) == spec_apply_backspaces(
                text@.take(i as int),
            ),
        decreases n - i,
    {
        let c = text.get_char(i);
        proof {
            assert(text@.take(i as int + 1).drop_last() =~= text@.take(i as int));
        }
        let ghost keep0 = keep@;
        if c == '\u{0008}' {
            let popped = keep.pop();
            proof {
                if keep0.len() > 0 {
                    assert(keep@.map_values(|j: usize| text@[j as int])
                        =~= keep0.map_values(|j: usize| text@[j as int]).drop_last());
                }
            }
        } else {
            keep.push(i);
            proof {
                assert(keep@.map_values(|j: usize| text@[j as int])
                    =~= keep0.map_values(|j: usize| text@[j as int]).push(text@[i as int]));
            }
        }
        i = i + 1;
    }
    proof {
        assert(text@.take(n as int) =~= text@);
    }
    let m = keep.len();
    let mut out = String::new();
    let mut j: usize = 0;
    while j < m
        invariant
            j <= m,
            m == keep@.len(),
            n == text@.len(),
            forall|k: int| 0 <= k < keep@.len() ==> keep@[k] < n,
            keep@.map_values(|jj: usize| text@[jj as int]) == spec_apply_backspaces(text@),
            out@ == spec_apply_backspaces(text@).take(j as int),
        decreases m - j,
    {
        let idx = keep[j];
        append_char_of(&mut out, text, idx, n);
        proof {
            let mapped = keep@.map_values(|jj: usize| text@[jj as int]);
            assert(mapped.take(j as int + 1) =~= mapped.take(j as int).push(mapped[j as int]));
        }
        j = j + 1;
    }
    proof {
        assert(spec_apply_backspaces(text@).take(m as int) =~= spec_apply_backspaces(text@));
    }
    out
}

/// Split on a separator character, as `str::split` does.
pub(crate) fn split_str(s: &str, c: char) -> (r: Vec<String>)
    ensures
        r.deep_view() == spec_split(s@, c),
{
    let n = s.unicode_len();
    let mut parts: Vec<String> = Vec::new();
    let mut cur = String::new();
    let mut i: usize = 0;
    proof {
        assert(s@.skip(0) =~= s@);
        let r0 = spec_split(s@, c);
        assert(parts.deep_view() + seq![cur@ + r0[0]] + r0.skip(1) =~~= seq![r0[0]] + r0.skip(1));
        assert(seq![r0[0]] + r0.skip(1) =~~= r0);
    }
    while i < n
        invariant
            i <= n,
            n == s@.len(),
            spec_split(s@, c) == parts.deep_view() + seq![cur@ + spec_split(s@.skip(i as int), c)[0]]
                + spec_split(s@.skip(i as int), c).skip(1),
        decreases n - i,
    {
        let ghost rcur = spec_split(s@.skip(i as int), c);
        let ghost rnext = spec_split(s@.skip(i as int + 1), c);
        proof {
            assert(s@.skip(i as int).skip(1) =~= s@.skip(i as int + 1));
        }
        let ci = s.get_char(i);
        if ci == c {
            proof {
                assert(rcur =~~= seq![Seq::<char>::empty()] + rnext);
            }
            let ghost parts0 = parts.deep_view();
            let ghost cur0 = cur@;
            parts.push(cur.clone());
            cur = String::new();
            proof {
                assert(parts.deep_view() =~~= parts0.push(cur0));
                assert(cur0 + rcur[0] =~= cur0);
                assert(rcur.skip(1) =~~= rnext);
                assert(parts0.push(cur0) + seq![cur@ + rnext[0]] + rnext.skip(1)
                    =~~= parts0 + seq![cur0 + rcur[0]] + rcur.skip(1));
            }
        } else {
            proof {
                assert(rcur =~~= seq![seq![s@[i as int]] + rnext[0]] + rnext.skip(1));
            }
            let ghost cur0 = cur@;
            append_char_of(&mut cur, s, i, n);
            proof {
                assert(cur@ + rnext[0] =~= cur0 + rcur[0]);
                assert(rcur.skip(1) =~~= rnext.skip(1));
            }
        }
        i = i + 1;
    }
    proof {
        assert(s@.skip(n as int) =~= Seq::<char>::empty());
    }
    let ghost parts0 = parts.deep_view();
    let ghost cur0 = cur@;
    parts.push(cur);
    proof {
        let rend = spec_split(Seq::<char>::empty(), c);
        assert(rend =~~= seq![Seq::<char>::empty()]);
        assert(cur0 + rend[0] =~= cur0);
        assert(parts.deep_view() =~~= parts0.push(cur0));
        assert(parts0.push(cur0) =~~= parts0 + seq![cur0 + rend[0]] + rend.skip(1));
    }
    parts
}

/// Join parts with LF.
pub(crate) fn join_with_nl(parts: &Vec<String>) -> (r: String)
    ensures
        r@ == spec_join(parts.deep_view(), seq!['\n']),
{
    let m = parts.len();
    let mut out = String::new();
    let mut i: usize = 0;
    proof {
        assert(parts.deep_view().skip(0) =~~= parts.deep_view());
        assert(out@ + spec_join(parts.deep_view(), seq!['\n'])
            =~= spec_join(parts.deep_view(), seq!['\n']));
    }
    while i < m
        invariant
            i <= m,
            m == parts.deep_view().len(),
            m == parts@.len(),
            spec_join(parts.deep_view(), seq!['\n']) == out@ + spec_join(
                parts.deep_view().skip(i as int),
                seq!['\n'],
            ),
        decreases m - i,
    {
        let ghost dv = parts.deep_view();
        out.append(parts[i].as_str());
        if i + 1 < m {
            out.append("\n");
            proof {
                reveal_strlit("\n");
                assert(dv.skip(i as int).len() >= 2);
                assert(dv.skip(i as int)[0] == dv[i as int]);
                assert(dv.skip(i as int).skip(1) =~~= dv.skip(i as int + 1));
            }
        } else {
            proof {
                assert(dv.skip(i as int).len() == 1);
                assert(dv.skip(i as int)[0] == dv[i as int]);
                assert(dv.skip(i as int + 1) =~~= Seq::<Seq<char>>::empty());
            }
        }
        i = i + 1;
    }
    proof {
        if m == 0 {
            assert(spec_join(parts.deep_view(), seq!['\n']) =~= out@);
        }
        assert(parts.deep_view().skip(m as int) =~~= Seq::<Seq<char>>::empty());
    }
    out
}

/// Append one decimal digit character.
fn append_digit(out: &mut String, d: usize)
    requires
        d < 10,
    ensures
        final(out)@ == old(out)@ + seq![spec_digit(d as nat)],
{
    proof {
        reveal_strlit("0");
        reveal_strlit("1");
        reveal_strlit("2");
        reveal_strlit("3");
        reveal_strlit("4");
        reveal_strlit("5");
        reveal_strlit("6");
        reveal_strlit("7");
        reveal_strlit("8");
        reveal_strlit("9");
    }
    if d == 0 {
        out.append("0");
    } else if d == 1 {
        out.append("1");
    } else if d == 2 {
        out.append("2");
    } else if d == 3 {
        out.append("3");
    } else if d == 4 {
        out.append("4");
    } else if d == 5 {
        out.append("5");
    } else if d == 6 {
        out.append("6");
    } else if d == 7 {
        out.append("7");
    } else if d == 8 {
        out.append("8");
    } else {
        out.append("9");
    }
}

/// Append the decimal representation of `n`.
pub(crate) fn append_dec(out: &mut String, n: usize)
    ensures
        final(out)@ == old(out)@ + spec_dec(n as nat),
    decreases n,
{
    if n >= 10 {
        append_dec(out, n / 10);
        append_digit(out, n % 10);
    } else {
        append_digit(out, n);
    }
}

/// Append `k` space characters.
fn append_spaces(out: &mut String, k: usize)
    ensures
        final(out)@ == old(out)@ + spec_spaces(k as nat),
{
    let mut j: usize = 0;
    proof {
        assert(out@ + spec_spaces(0) =~= out@);
    }
    while j < k
        invariant
            j <= k,
            out@ == old(out)@ + spec_spaces(j as nat),
        decreases k - j,
    {
        out.append(" ");
        proof {
            reveal_strlit(" ");
        }
        j = j + 1;
    }
}

/// Append `n` right-justified in a field of at least six characters, as
/// `cat -n` renders line numbers.
fn append_pad6(out: &mut String, n: usize)
    ensures
        final(out)@ == old(out)@ + spec_pad6(n as nat),
{
    let mut d = String::new();
    append_dec(&mut d, n);
    let k = d.unicode_len();
    if k < 6 {
        append_spaces(out, 6 - k);
    }
    out.append(d.as_str());
}

/// Generate line-numbered output matching the `cat -n` format: each line is
/// prefixed with a right-justified six-character line number and a tab, for
/// the (optionally clamped) 1-based inclusive line range.
pub fn line_numbered_output(content: &str, start_line: Option<usize>, end_line: Option<usize>)
    -> (r: String)
    ensures
        r@ == spec_line_numbered(
            content@,
            match start_line {
                Some(v) => Some(v as nat),
                None => None,
            },
            match end_line {
                Some(v) => Some(v as nat),
                None => None,
            },
        ),
{
    let n0 = content.unicode_len();
    if n0 == 0 {
        return String::new();
    }
    let parts = split_str(content, '\n');
    let total = parts.len();
    proof {
        assert(total == spec_split(content@, '\n').len());
    }
    let lo: usize = match start_line {
        Some(v) => if v < 1 { 1 } else if v > total { total } else { v },
        None => 1,
    };
    let hi: usize = match end_line {
        Some(v) => if v < 1 { 1 } else if v > total { total } else { v },
        None => total,
    };
    let mut rows: Vec<String> = Vec::new();
    if lo <= hi {
        let count = hi - lo + 1;
        let mut k: usize = 0;
        proof {
            assert(rows.deep_view() =~~= spec_numbered_rows(
                spec_split(content@, '\n'),
                lo as nat,
                (lo - 1) as nat,
            ));
        }
        while k < count
            invariant
                k <= count,
                count == hi - lo + 1,
                1 <= lo,
                hi <= total,
                total == parts@.len(),
                parts.deep_view() == spec_split(content@, '\n'),
                total == spec_split(content@, '\n').len(),
                rows.deep_view() == spec_numbered_rows(
                    spec_split(content@, '\n'),
                    lo as nat,
                    (lo + k - 1) as nat,
                ),
            decreases count - k,
        {
            let idx = lo + k;
            let mut row = String::new();
            append_pad6(&mut row, idx);
            row.append("\t");
            row.append(parts[idx - 1].as_str());
            let ghost rows0 = rows.deep_view();
            let ghost rowv = row@;
            rows.push(row);
            proof {
                reveal_strlit("\t");
                let fields = spec_split(content@, '\n');
                assert(rowv =~= spec_pad6(idx as nat) + seq!['\t'] + fields[idx - 1]);
                assert(rows.deep_view() =~~= rows0.push(rowv));
                lemma_numbered_rows_snoc(fields, lo as nat, idx as nat);
            }
            k = k + 1;
        }
    }
    let r = join_with_nl(&rows);
    proof {
        assert((lo + (hi - lo + 1) - 1) as nat == hi as nat);
    }
    r
}

/// Rows over `[lo, hi]` are the rows over `[lo, hi - 1]` plus the row for
/// `hi`.
proof fn lemma_numbered_rows_snoc(fields: Seq<Seq<char>>, lo: nat, hi: nat)
    requires
        1 <= lo <= hi,
    ensures
        spec_numbered_rows(fields, lo, hi) == spec_numbered_rows(fields, lo, (hi - 1) as nat).push(
            spec_pad6(hi) + seq!['\t'] + (if 0 <= hi - 1 < fields.len() {
                fields[hi - 1]
            } else {
                Seq::<char>::empty()
            }),
        ),
    decreases hi - lo,
{
    let row = spec_pad6(hi) + seq!['\t'] + (if 0 <= hi - 1 < fields.len() {
        fields[hi - 1]
    } else {
        Seq::<char>::empty()
    });
    if lo == hi {
        assert(spec_numbered_rows(fields, lo, (hi - 1) as nat) =~~= Seq::<Seq<char>>::empty());
        assert(spec_numbered_rows(fields, hi + 1, hi) =~~= Seq::<Seq<char>>::empty());
        assert(spec_numbered_rows(fields, lo, hi) =~~= Seq::<Seq<char>>::empty().push(row));
    } else {
        lemma_numbered_rows_snoc(fields, lo + 1, hi);
        let head = spec_pad6(lo) + seq!['\t'] + (if 0 <= lo - 1 < fields.len() {
            fields[lo - 1]
        } else {
            Seq::<char>::empty()
        });
        assert(spec_numbered_rows(fields, lo, hi) =~~= seq![head] + spec_numbered_rows(
            fields,
            lo + 1,
            hi,
        ));
        assert(spec_numbered_rows(fields, lo, (hi - 1) as nat) =~~= seq![head]
            + spec_numbered_rows(fields, lo + 1, (hi - 1) as nat));
        assert(seq![head] + spec_numbered_rows(fields, lo + 1, (hi - 1) as nat).push(row)
            =~~= (seq![head] + spec_numbered_rows(fields, lo + 1, (hi - 1) as nat)).push(row));
    }
}

/// Escape text for use inside a single-quoted sed replacement: backslashes
/// are doubled and single quotes use the shell quote-switching idiom.
pub fn escape_single_quotes_for_sed(text: &str) -> (r: String)
    ensures
        r@ == spec_escape_sed(text@),
{
    let n = text.unicode_len();
    let mut out = String::new();
    let mut i: usize = 0;
    while i < n
        invariant
            i <= n,
            n == text@.len(),
            out@ == spec_escape_sed(text@.take(i as int)),
        decreases n - i,
    {
        let c = text.get_char(i);
        proof {
            assert(text@.take(i as int + 1).drop_last() =~= text@.take(i as int));
        }
        if c == '\\' {
            out.append("\\\\");
            proof {
                reveal_strlit("\\\\");
                assert("\\\\"@ =~= seq!['\\', '\\']);
            }
        } else if c == '\'' {
            out.append("'\"'\"'");
            proof {
                reveal_strlit("'\"'\"'");
                assert("'\"'\"'"@ =~= seq!['\'', '"', '\'', '"', '\'']);
            }
        } else {
            append_char_of(&mut out, text, i, n);
        }
        i = i + 1;
    }
    proof {
        assert(text@.take(n as int) =~= text@);
    }
    out
}

/// Apply a text change at the given codepoint offset: escaped newlines in
/// `new_text` are translated, the content is right-padded with spaces when
/// the offset lies past its end, and `length` characters (clamped to what
/// remains) are replaced.
pub fn apply_change(content: &str, offset: usize, length: usize, new_text: &str) -> (r: String)
    ensures
        r@ == spec_apply_change(content@, offset as nat, length as nat, new_text@),
{
    let text = unescape(new_text);
    let n = content.unicode_len();
    let mut base = content.to_owned();
    if offset > n {
        append_spaces(&mut base, offset - n);
        proof {
            crate::textspec::lemma_spaces_len((offset - n) as nat);
        }
    }
    let bl = if offset > n { offset } else { n };
    proof {
        assert(base@.len() == bl);
    }
    let so = if offset < bl { offset } else { bl };
    let sl = if length <= bl - so { length } else { bl - so };
    let mut out = String::new();
    out.append(base.as_str().substring_char(0, so));
    out.append(text.as_str());
    out.append(base.as_str().substring_char(so + sl, bl));
    proof {
        let sbase = if offset as nat > content@.len() {
            content@ + spec_spaces((offset - content@.len()) as nat)
        } else {
            content@
        };
        assert(base@ =~= sbase);
        assert(base@.subrange(0, so as int) =~= sbase.take(so as int));
        assert(base@.subrange(so as int + sl as int, bl as int) =~= sbase.skip(so as int + sl as int));
    }
    out
}

/// Remove terminated OSC sequences: from ESC `]` through the nearest BEL or
/// ESC `\` terminator.
fn osc_strip(s: &str) -> (r: String)
    ensures
        r@ == spec_osc_strip(s@),
{
    let n = s.unicode_len();
    let mut out = String::new();
    let mut i: usize = 0;
    proof {
        assert(s@.skip(0) =~= s@);
        assert(out@ + spec_osc_strip(s@) =~= spec_osc_strip(s@));
    }
    while i < n
        invariant
            i <= n,
            n == s@.len(),
            spec_osc_strip(s@) == out@ + spec_osc_strip(s@.skip(i as int)),
        decreases n - i,
    {
        let ghost rem = s@.skip(i as int);
        let c = s.get_char(i);
        if c == '\u{001b}' && i + 1 < n && s.get_char(i + 1) == ']' {
            let mut j = i + 2;
            let mut term_end: usize = 0;
            let mut found = false;
            while j < n && !found
                invariant
                    i + 2 <= j <= n,
                    n == s@.len(),
                    rem == s@.skip(i as int),
                    i < n,
                    !found ==> spec_first_osc_term(rem, 2) == spec_first_osc_term(
                        rem,
                        (j - i) as nat,
                    ),
                    found ==> spec_first_osc_term(rem, 2) == Some((term_end - i) as int) && i + 2
                        < term_end <= n,
                decreases n - j + (if found { 0int } else { 1int }),
            {
                let cj = s.get_char(j);
                if cj == '\u{0007}' {
                    term_end = j + 1;
                    found = true;
                } else if cj == '\u{001b}' && j + 1 < n && s.get_char(j + 1) == '\\' {
                    term_end = j + 2;
                    found = true;
                } else {
                    j = j + 1;
                }
            }
            if found {
                proof {
                    assert(rem.skip((term_end - i) as int) =~= s@.skip(term_end as int));
                }
                i = term_end;
            } else {
                proof {
                    assert(spec_first_osc_term(rem, (j - i) as nat) is None);
                    assert(rem.skip(1) =~= s@.skip(i as int + 1));
                }
                append_char_of(&mut out, s, i, n);
                i = i + 1;
            }
        } else {
            proof {
                assert(rem.skip(1) =~= s@.skip(i as int + 1));
            }
            append_char_of(&mut out, s, i, n);
            i = i + 1;
        }
    }
    proof {
        assert(s@.skip(n as int) =~= Seq::<char>::empty());
    }
    out
}

/// Drop an unterminated OSC tail: everything from the first ESC `]` in the
/// line to the end of the line.
fn osc_tail_strip(line: &str) -> (r: String)
    ensures
        r@ == spec_osc_tail_strip(line@),
{
    let n = line.unicode_len();
    let mut out = String::new();
    let mut i: usize = 0;
    proof {
        assert(line@.skip(0) =~= line@);
        assert(out@ + spec_osc_tail_strip(line@) =~= spec_osc_tail_strip(line@));
    }
    while i < n
        invariant
            i <= n,
            n == line@.len(),
            spec_osc_tail_strip(line@) == out@ + spec_osc_tail_strip(line@.skip(i as int)),
        decreases n - i,
    {
        let c = line.get_char(i);
        if c == '\u{001b}' && i + 1 < n && line.get_char(i + 1) == ']' {
            return out;
        }
        proof {
            assert(line@.skip(i as int).skip(1) =~= line@.skip(i as int + 1));
        }
        append_char_of(&mut out, line, i, n);
        i = i + 1;
    }
    proof {
        assert(line@.skip(n as int) =~= Seq::<char>::empty());
    }
    out
}

/// Resolve carriage returns within one LF-delimited segment: keep the last
/// non-empty CR-separated field, or the empty field when all are empty.
fn cr_resolve(seg: &str) -> (r: String)
    ensures
        r@ == spec_cr_resolve(seg@),
{
    let parts = split_str(seg, '\r');
    let mut k = parts.len();
    proof {
        assert(parts.deep_view().take(k as int) =~~= parts.deep_view());
    }
    while k > 0
        invariant
            k <= parts.deep_view().len(),
            k <= parts@.len(),
            parts@.len() == parts.deep_view().len(),
            spec_last_nonempty(parts.deep_view()) == spec_last_nonempty(
                parts.deep_view().take(k as int),
            ),
            parts.deep_view() == spec_split(seg@, '\r'),
        decreases k,
    {
        if !parts[k - 1].as_str().is_empty() {
            let r = parts[k - 1].clone();
            proof {
                let dvk = parts.deep_view().take(k as int);
                assert(dvk.last() == parts.deep_view()[k - 1]);
            }
            return r;
        }
        proof {
            let dvk = parts.deep_view().take(k as int);
            assert(dvk.last() == parts.deep_view()[k - 1]);
            assert(dvk.drop_last() =~~= parts.deep_view().take(k as int - 1));
        }
        k = k - 1;
    }
    proof {
        assert(parts.deep_view().take(0) =~~= Seq::<Seq<char>>::empty());
    }
    String::new()
}

/// Strip ANSI CSI escape sequences: ESC `[`, a run of parameter characters,
/// a run of intermediate characters, and one final character.
fn csi_strip(s: &str) -> (r: String)
    ensures
        r@ == spec_csi_strip(s@),
{
    let n = s.unicode_len();
    let mut out = String::new();
    let mut i: usize = 0;
    proof {
        assert(s@.skip(0) =~= s@);
        assert(out@ + spec_csi_strip(s@) =~= spec_csi_strip(s@));
    }
    while i < n
        invariant
            i <= n,
            n == s@.len(),
            spec_csi_strip(s@) == out@ + spec_csi_strip(s@.skip(i as int)),
        decreases n - i,
    {
        let ghost rem = s@.skip(i as int);
        let c = s.get_char(i);
        let mut matched = false;
        if c == '\u{001b}' && i + 1 < n && s.get_char(i + 1) == '[' {
            let mut j = i + 2;
            while j < n && is_csi_param_exec(s.get_char(j))
                invariant
                    i + 2 <= j <= n,
                    n == s@.len(),
                    rem == s@.skip(i as int),
                    i < n,
                    spec_run_end(rem, 2, false) == spec_run_end(rem, (j - i) as nat, false),
                decreases n - j,
            {
                j = j + 1;
            }
            proof {
                assert(spec_run_end(rem, (j - i) as nat, false) == spec_run_end(
                    rem,
                    (j - i) as nat,
                    true,
                ));
            }
            while j < n && is_csi_inter_exec(s.get_char(j))
                invariant
                    i + 2 <= j <= n,
                    n == s@.len(),
                    rem == s@.skip(i as int),
                    i < n,
                    spec_run_end(rem, 2, false) == spec_run_end(rem, (j - i) as nat, true),
                decreases n - j,
            {
                j = j + 1;
            }
            proof {
                assert(spec_run_end(rem, (j - i) as nat, true) == (j - i) as nat);
            }
            if j < n && is_csi_final_exec(s.get_char(j)) {
                proof {
                    assert(rem.skip((j - i) as int + 1) =~= s@.skip(j as int + 1));
                }
                i = j + 1;
                matched = true;
            }
        }
        if !matched {
            proof {
                assert(rem.skip(1) =~= s@.skip(i as int + 1));
            }
            append_char_of(&mut out, s, i, n);
            i = i + 1;
        }
    }
    proof {
        assert(s@.skip(n as int) =~= Seq::<char>::empty());
    }
    out
}

/// Whether `c` is a CSI parameter character.
fn is_csi_param_exec(c: char) -> (b: bool)
    ensures
        b == spec_is_csi_param(c),
{
    let u = c as u32;
    (0x30 <= u && u <= 0x39) || u == 0x3B || u == 0x3F
}

/// Whether `c` is a CSI intermediate character.
fn is_csi_inter_exec(c: char) -> (b: bool)
    ensures
        b == spec_is_csi_inter(c),
{
    let u = c as u32;
    0x20 <= u && u <= 0x2F
}

/// Whether `c` is a CSI final character.
fn is_csi_final_exec(c: char) -> (b: bool)
    ensures
        b == spec_is_csi_final(c),
{
    let u = c as u32;
    0x40 <= u && u <= 0x7E
}

/// Remove BEL characters.
fn bel_strip(s: &str) -> (r: String)
    ensures
        r@ == spec_bel_strip(s@),
{
    let n = s.unicode_len();
    let mut out = String::new();
    let mut i: usize = 0;
    while i < n
        invariant
            i <= n,
            n == s@.len(),
            out@ == spec_bel_strip(s@.take(i as int)),
        decreases n - i,
    {
        let c = s.get_char(i);
        proof {
            assert(s@.take(i as int + 1).drop_last() =~= s@.take(i as int));
        }
        if c != '\u{0007}' {
            append_char_of(&mut out, s, i, n);
        }
        i = i + 1;
    }
    proof {
        assert(s@.take(n as int) =~= s@);
    }
    out
}

/// Apply `osc_tail_strip` to each LF-delimited segment and re-join with LF.
fn strip_osc_tails(s: &str) -> (r: String)
    ensures
        r@ == spec_map_segments(s@, |line: Seq<char>| spec_osc_tail_strip(line)),
{
    let parts = split_str(s, '\n');
    let m = parts.len();
    let mut mapped: Vec<String> = Vec::new();
    let mut k: usize = 0;
    while k < m
        invariant
            k <= m,
            m == parts@.len(),
            parts.deep_view() == spec_split(s@, '\n'),
            mapped.deep_view() =~~= parts.deep_view().take(k as int).map_values(
                |line: Seq<char>| spec_osc_tail_strip(line),
            ),
        decreases m - k,
    {
        let ghost mapped0 = mapped.deep_view();
        let piece = osc_tail_strip(parts[k].as_str());
        let ghost pv = piece@;
        mapped.push(piece);
        proof {
            let f = |line: Seq<char>| spec_osc_tail_strip(line);
            assert(mapped.deep_view() =~~= mapped0.push(pv));
            assert(parts.deep_view().take(k as int + 1).map_values(f) =~~= parts.deep_view(
            ).take(k as int).map_values(f).push(f(parts.deep_view()[k as int])));
        }
        k = k + 1;
    }
    proof {
        assert(parts.deep_view().take(m as int) =~~= parts.deep_view());
    }
    join_with_nl(&mapped)
}

/// Apply `cr_resolve` to each LF-delimited segment and re-join with LF.
fn resolve_cr_segments(s: &str) -> (r: String)
    ensures
        r@ == spec_map_segments(s@, |seg: Seq<char>| spec_cr_resolve(seg)),
{
    let parts = split_str(s, '\n');
    let m = parts.len();
    let mut mapped: Vec<String> = Vec::new();
    let mut k: usize = 0;
    while k < m
        invariant
            k <= m,
            m == parts@.len(),
            parts.deep_view() == spec_split(s@, '\n'),
            mapped.deep_view() =~~= parts.deep_view().take(k as int).map_values(
                |seg: Seq<char>| spec_cr_resolve(seg),
            ),
        decreases m - k,
    {
        let ghost mapped0 = mapped.deep_view();
        let piece = cr_resolve(parts[k].as_str());
        let ghost pv = piece@;
        mapped.push(piece);
        proof {
            let f = |seg: Seq<char>| spec_cr_resolve(seg);
            assert(mapped.deep_view() =~~= mapped0.push(pv));
            assert(parts.deep_view().take(k as int + 1).map_values(f) =~~= parts.deep_view(
            ).take(k as int).map_values(f).push(f(parts.deep_view()[k as int])));
        }
        k = k + 1;
    }
    proof {
        assert(parts.deep_view().take(m as int) =~~= parts.deep_view());
    }
    join_with_nl(&mapped)
}

/// Normalize terminal output: apply backspaces, remove terminated OSC
/// sequences, drop unterminated OSC tails per line, resolve carriage returns
/// per line, strip CSI sequences, and remove remaining BEL characters.
pub fn normalize_terminal_output(raw: &str) -> (r: String)
    ensures
        r@ == spec_normalize_terminal(raw@),
{
    if raw.is_empty() {
        return raw.to_owned();
    }
    let s1 = apply_backspaces(raw);
    let s2 = osc_strip(s1.as_str());
    let s3 = strip_osc_tails(s2.as_str());
    let s4 = resolve_cr_segments(s3.as_str());
    let s5 = csi_strip(s4.as_str());
    bel_strip(s5.as_str())
}

/// Character-for-character string equality.
pub(crate) fn str_eq(a: &str, b: &str) -> (r: bool)
    ensures
        r == (a@ == b@),
{
    let na = a.unicode_len();
    let nb = b.unicode_len();
    if na != nb {
        return false;
    }
    let mut i: usize = 0;
    while i < na
        invariant
            i <= na,
            na == a@.len(),
            na == b@.len(),
            forall|k: int| 0 <= k < i ==> a@[k] == b@[k],
        decreases na - i,
    {
        if a.get_char(i) != b.get_char(i) {
            return false;
        }
        i = i + 1;
    }
    proof {
        assert(a@ =~= b@);
    }
    true
}

/// Strict lexicographic comparison by code point.
pub(crate) fn str_lex_lt(a: &str, b: &str) -> (r: bool)
    ensures
        r == crate::textspec::spec_lex_lt(a@, b@),
{
    let na = a.unicode_len();
    let nb = b.unicode_len();
    let mut i: usize = 0;
    proof {
        assert(a@.skip(0) =~= a@);
        assert(b@.skip(0) =~= b@);
    }
    while i < na && i < nb
        invariant
            i <= na,
            i <= nb,
            na == a@.len(),
            nb == b@.len(),
            crate::textspec::spec_lex_lt(a@, b@) == crate::textspec::spec_lex_lt(
                a@.skip(i as int),
                b@.skip(i as int),
            ),
        decreases na - i,
    {
        let ca = a.get_char(i);
        let cb = b.get_char(i);
        proof {
            assert(a@.skip(i as int).skip(1) =~= a@.skip(i as int + 1));
            assert(b@.skip(i as int).skip(1) =~= b@.skip(i as int + 1));
        }
        if (ca as u32) != (cb as u32) {
            proof {
                vstd::utf8::char_u32_cast(ca, ca as u32);
                vstd::utf8::char_u32_cast(cb, cb as u32);
            }
            return (ca as u32) < (cb as u32);
        }
        i = i + 1;
    }
    proof {
        assert(a@.skip(i as int).len() == na - i);
        assert(b@.skip(i as int).len() == nb - i);
    }
    i < nb
}

/// Remove trailing LF characters only.
pub(crate) fn trim_trailing_nl(s: &str) -> (r: String)
    ensures
        r@ == crate::textspec::spec_trim_trailing_nl(s@),
{
    let n = s.unicode_len();
    let mut j = n;
    proof {
        assert(s@.take(n as int) =~= s@);
    }
    while j > 0 && s.get_char(j - 1) == '\n'
        invariant
            j <= n,
            n == s@.len(),
            crate::textspec::spec_trim_trailing_nl(s@) == crate::textspec::spec_trim_trailing_nl(
                s@.take(j as int),
            ),
        decreases j,
    {
        proof {
            assert(s@.take(j as int).drop_last() =~= s@.take(j as int - 1));
        }
        j = j - 1;
    }
    let r = s.substring_char(0, j).to_owned();
    proof {
        assert(s@.take(j as int) =~= s@.subrange(0, j as int));
    }
    r
}

/// Count occurrences of `c` among the first `upto` characters.
pub(crate) fn count_char_prefix(s: &str, upto: usize, c: char) -> (r: usize)
    requires
        upto <= s@.len(),
    ensures
        r == crate::textspec::spec_count_char(s@.take(upto as int), c),
{
    let mut cnt: usize = 0;
    let mut i: usize = 0;
    proof {
        assert(s@.take(0) =~= Seq::<char>::empty());
    }
    while i < upto
        invariant
            i <= upto <= s@.len(),
            cnt == crate::textspec::spec_count_char(s@.take(i as int), c),
            cnt <= i,
        decreases upto - i,
    {
        proof {
            assert(s@.take(i as int + 1).drop_last() =~= s@.take(i as int));
        }
        if s.get_char(i) == c {
            cnt = cnt + 1;
        }
        i = i + 1;
    }
    cnt
}

} // verus!
