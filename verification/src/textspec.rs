//! Mathematical models of the text transformations.
//!
//! Every executable text utility in this crate is specified against one of the
//! spec functions below; the functions operate on `Seq<char>` views.

use vstd::prelude::*;

verus! {

/// Translate the two-character escape sequences `\n` and `\r` into the real
/// control characters, scanning left to right.
pub open spec fn spec_unescape(s: Seq<char>) -> Seq<char>
    decreases s.len(),
{
    if s.len() == 0 {
        s
    } else if s.len() >= 2 && s[0] == '\\' && s[1] == 'n' {
        seq!['\n'] + spec_unescape(s.skip(2))
    } else if s.len() >= 2 && s[0] == '\\' && s[1] == 'r' {
        seq!['\r'] + spec_unescape(s.skip(2))
    } else {
        seq![s[0]] + spec_unescape(s.skip(1))
    }
}

/// Replace CRLF pairs and lone CR characters with LF, scanning left to right.
pub open spec fn spec_normalize_newlines(s: Seq<char>) -> Seq<char>
    decreases s.len(),
{
    if s.len() == 0 {
        s
    } else if s.len() >= 2 && s[0] == '\r' && s[1] == '\n' {
        seq!['\n'] + spec_normalize_newlines(s.skip(2))
    } else if s[0] == '\r' {
        seq!['\n'] + spec_normalize_newlines(s.skip(1))
    } else {
        seq![s[0]] + spec_normalize_newlines(s.skip(1))
    }
}

/// The Unicode `White_Space` characters, as used by `str::trim_end`.
pub open spec fn spec_is_ws(c: char) -> bool {
    c == '\u{0009}' || c == '\u{000A}' || c == '\u{000B}' || c == '\u{000C}' || c == '\u{000D}'
        || c == '\u{0020}' || c == '\u{0085}' || c == '\u{00A0}' || c == '\u{1680}'
        || (0x2000 <= (c as u32) && (c as u32) <= 0x200A) || c == '\u{2028}' || c == '\u{2029}'
        || c == '\u{202F}' || c == '\u{205F}' || c == '\u{3000}'
}

/// Remove trailing whitespace characters.
pub open spec fn spec_trim_end(s: Seq<char>) -> Seq<char>
    decreases s.len(),
{
    if s.len() > 0 && spec_is_ws(s.last()) {
        spec_trim_end(s.drop_last())
    } else {
        s
    }
}

/// Normalize line endings to LF and strip trailing whitespace.
pub open spec fn spec_clean_text(s: Seq<char>) -> Seq<char> {
    spec_trim_end(spec_normalize_newlines(s))
}

/// Split on a separator character; always yields one part more than the
/// number of separator occurrences.
pub open spec fn spec_split(s: Seq<char>, c: char) -> Seq<Seq<char>>
    decreases s.len(),
{
    if s.len() == 0 {
        seq![Seq::<char>::empty()]
    } else if s[0] == c {
        seq![Seq::<char>::empty()] + spec_split(s.skip(1), c)
    } else {
        let rest = spec_split(s.skip(1), c);
        seq![seq![s[0]] + rest[0]] + rest.skip(1)
    }
}

/// A split always has at least one part.
pub proof fn lemma_split_len_pos(s: Seq<char>, c: char)
    ensures
        spec_split(s, c).len() >= 1,
    decreases s.len(),
{
    if s.len() > 0 {
        lemma_split_len_pos(s.skip(1), c);
    }
}

/// Join parts with a separator sequence.
pub open spec fn spec_join(parts: Seq<Seq<char>>, sep: Seq<char>) -> Seq<char>
    decreases parts.len(),
{
    if parts.len() == 0 {
        Seq::empty()
    } else if parts.len() == 1 {
        parts[0]
    } else {
        parts[0] + sep + spec_join(parts.skip(1), sep)
    }
}

/// Number of occurrences of a character.
pub open spec fn spec_count_char(s: Seq<char>, c: char) -> nat
    decreases s.len(),
{
    if s.len() == 0 {
        0
    } else {
        spec_count_char(s.drop_last(), c) + (if s.last() == c { 1nat } else { 0nat })
    }
}

/// The decimal digit character for a value below ten.
pub open spec fn spec_digit(d: nat) -> char {
    if d == 0 { '0' }
    else if d == 1 { '1' }
    else if d == 2 { '2' }
    else if d == 3 { '3' }
    else if d == 4 { '4' }
    else if d == 5 { '5' }
    else if d == 6 { '6' }
    else if d == 7 { '7' }
    else if d == 8 { '8' }
    else { '9' }
}

/// Decimal representation of a natural number, most significant digit first.
pub open spec fn spec_dec(n: nat) -> Seq<char>
    decreases n,
{
    if n < 10 {
        seq![spec_digit(n)]
    } else {
        spec_dec(n / 10) + seq![spec_digit(n % 10)]
    }
}

/// A run of space characters.
pub open spec fn spec_spaces(k: nat) -> Seq<char>
    decreases k,
{
    if k == 0 {
        Seq::empty()
    } else {
        spec_spaces((k - 1) as nat) + seq![' ']
    }
}

/// The length of a run of spaces.
pub proof fn lemma_spaces_len(k: nat)
    ensures
        spec_spaces(k).len() == k,
    decreases k,
{
    if k > 0 {
        lemma_spaces_len((k - 1) as nat);
    }
}

/// A line number as `cat -n` renders it: right-justified in a field of at
/// least six characters.
pub open spec fn spec_pad6(n: nat) -> Seq<char> {
    if spec_dec(n).len() < 6 {
        spec_spaces((6 - spec_dec(n).len()) as nat) + spec_dec(n)
    } else {
        spec_dec(n)
    }
}

/// Strict lexicographic order on character sequences by code point.
pub open spec fn spec_lex_lt(a: Seq<char>, b: Seq<char>) -> bool
    decreases a.len(),
{
    if b.len() == 0 {
        false
    } else if a.len() == 0 {
        true
    } else if a[0] != b[0] {
        (a[0] as u32) < (b[0] as u32)
    } else {
        spec_lex_lt(a.skip(1), b.skip(1))
    }
}

/// Double backslashes, then rewrite single quotes with the shell
/// quote-switching idiom, for use inside a single-quoted sed script.
pub open spec fn spec_escape_sed(s: Seq<char>) -> Seq<char>
    decreases s.len(),
{
    if s.len() == 0 {
        s
    } else {
        spec_escape_sed(s.drop_last()) + spec_escape_char(s.last())
    }
}

/// The expansion of one character under [`spec_escape_sed`].
pub open spec fn spec_escape_char(c: char) -> Seq<char> {
    if c == '\\' {
        seq!['\\', '\\']
    } else if c == '\'' {
        seq!['\'', '"', '\'', '"', '\'']
    } else {
        seq![c]
    }
}

/// ASCII lowercasing of a sequence (uppercase letters A-Z shifted; all other
/// characters kept).
pub open spec fn spec_lower(s: Seq<char>) -> Seq<char>
    decreases s.len(),
{
    if s.len() == 0 {
        s
    } else {
        spec_lower(s.drop_last()) + seq![spec_lower_char(s.last())]
    }
}

/// ASCII lowercasing of one character.
pub open spec fn spec_lower_char(c: char) -> char {
    if c == 'A' { 'a' } else if c == 'B' { 'b' } else if c == 'C' { 'c' }
    else if c == 'D' { 'd' } else if c == 'E' { 'e' } else if c == 'F' { 'f' }
    else if c == 'G' { 'g' } else if c == 'H' { 'h' } else if c == 'I' { 'i' }
    else if c == 'J' { 'j' } else if c == 'K' { 'k' } else if c == 'L' { 'l' }
    else if c == 'M' { 'm' } else if c == 'N' { 'n' } else if c == 'O' { 'o' }
    else if c == 'P' { 'p' } else if c == 'Q' { 'q' } else if c == 'R' { 'r' }
    else if c == 'S' { 's' } else if c == 'T' { 't' } else if c == 'U' { 'u' }
    else if c == 'V' { 'v' } else if c == 'W' { 'w' } else if c == 'X' { 'x' }
    else if c == 'Y' { 'y' } else if c == 'Z' { 'z' }
    else { c }
}

/// A fenced code block: three backticks, the lowercased language tag, the
/// content on its own lines, and a closing fence.
pub open spec fn spec_fenced_block(lang: Option<Seq<char>>, content: Seq<char>) -> Seq<char> {
    seq!['`', '`', '`'] + spec_lower(lang.unwrap_or(Seq::empty())) + seq!['\n'] + content + seq![
        '\n',
        '`',
        '`',
        '`',
        '\n',
    ]
}

/// Remove backspace characters together with the character each one erases,
/// folding left over the sequence.
pub open spec fn spec_apply_backspaces(s: Seq<char>) -> Seq<char>
    decreases s.len(),
{
    if s.len() == 0 {
        s
    } else {
        let p = spec_apply_backspaces(s.drop_last());
        if s.last() == '\u{0008}' {
            if p.len() > 0 {
                p.drop_last()
            } else {
                p
            }
        } else {
            p.push(s.last())
        }
    }
}

/// Apply a character-range edit: unescape the new text, pad with spaces when
/// the offset lies past the end, and replace the clamped range.
pub open spec fn spec_apply_change(
    content: Seq<char>,
    offset: nat,
    length: nat,
    new_text: Seq<char>,
) -> Seq<char> {
    let text = spec_unescape(new_text);
    let base = if offset > content.len() {
        content + spec_spaces((offset - content.len()) as nat)
    } else {
        content
    };
    let so = if offset < base.len() { offset as int } else { base.len() as int };
    let sl = if length <= base.len() - so { length as int } else { base.len() - so };
    base.take(so) + text + base.skip(so + sl)
}

/// Line splitting as `cat` sees it: split on LF, with a terminal LF not
/// producing an extra empty line, and the empty text having no lines.
pub open spec fn spec_lines(s: Seq<char>) -> Seq<Seq<char>> {
    let parts = spec_split(s, '\n');
    if parts.last().len() == 0 {
        parts.drop_last()
    } else {
        parts
    }
}

/// The rows of `cat -n` output for the 1-based inclusive line range `[lo, hi]`.
pub open spec fn spec_numbered_rows(fields: Seq<Seq<char>>, lo: nat, hi: nat) -> Seq<Seq<char>>
    decreases hi + 1 - lo,
{
    if lo > hi {
        Seq::empty()
    } else {
        seq![spec_pad6(lo) + seq!['\t'] + (if 0 <= lo - 1 < fields.len() {
            fields[lo - 1]
        } else {
            Seq::empty()
        })] + spec_numbered_rows(fields, lo + 1, hi)
    }
}

/// Clamp an optional 1-based line bound into `[1, total]`.
pub open spec fn spec_clamp_line(v: Option<nat>, dflt: nat, total: nat) -> nat {
    match v {
        Some(x) => if x < 1 { 1 } else if x > total { total } else { x },
        None => dflt,
    }
}

/// Line-numbered output in the style of `cat -n`, restricted to an optional
/// line range: each row is a right-justified line number, a tab and the line,
/// rows joined by LF.
pub open spec fn spec_line_numbered(s: Seq<char>, start: Option<nat>, end: Option<nat>) -> Seq<
    char,
> {
    let fields = spec_split(s, '\n');
    let total: nat = if s.len() == 0 { 0 } else { fields.len() };
    if total == 0 {
        Seq::empty()
    } else {
        let lo = spec_clamp_line(start, 1, total);
        let hi = spec_clamp_line(end, total, total);
        spec_join(spec_numbered_rows(fields, lo, hi), seq!['\n'])
    }
}

/// The end position (exclusive) of the first OSC terminator at or after `i`:
/// a BEL, or the two-character sequence ESC `\`.
pub open spec fn spec_first_osc_term(s: Seq<char>, i: nat) -> Option<int>
    decreases s.len() - i,
{
    if i >= s.len() {
        None
    } else if s[i as int] == '\u{0007}' {
        Some(i + 1 as int)
    } else if s[i as int] == '\u{001b}' && i + 1 < s.len() && s[i as int + 1] == '\\' {
        Some(i + 2 as int)
    } else {
        spec_first_osc_term(s, i + 1)
    }
}

/// The first OSC terminator lies strictly past its starting point and within
/// the sequence.
pub proof fn lemma_first_osc_term_bounds(s: Seq<char>, i: nat)
    ensures
        spec_first_osc_term(s, i) is Some ==> i < spec_first_osc_term(s, i)->0
            <= s.len(),
    decreases s.len() - i,
{
    if i < s.len() && s[i as int] != '\u{0007}' && !(s[i as int] == '\u{001b}' && i + 1 < s.len()
        && s[i as int + 1] == '\\') {
        lemma_first_osc_term_bounds(s, i + 1);
    }
}

/// Remove every terminated OSC sequence: from ESC `]` through the nearest
/// BEL or ESC `\` terminator.
pub open spec fn spec_osc_strip(s: Seq<char>) -> Seq<char>
    decreases s.len() via spec_osc_strip_decreases
{
    if s.len() == 0 {
        s
    } else if s.len() >= 2 && s[0] == '\u{001b}' && s[1] == ']'
        && spec_first_osc_term(s, 2) is Some {
        spec_osc_strip(s.skip(spec_first_osc_term(s, 2)->0))
    } else {
        seq![s[0]] + spec_osc_strip(s.skip(1))
    }
}

#[via_fn]
proof fn spec_osc_strip_decreases(s: Seq<char>) {
    lemma_first_osc_term_bounds(s, 2);
}

/// Drop an unterminated OSC tail: everything from the first ESC `]` in a
/// line to the end of that line.
pub open spec fn spec_osc_tail_strip(line: Seq<char>) -> Seq<char>
    decreases line.len(),
{
    if line.len() == 0 {
        line
    } else if line.len() >= 2 && line[0] == '\u{001b}' && line[1] == ']' {
        Seq::empty()
    } else {
        seq![line[0]] + spec_osc_tail_strip(line.skip(1))
    }
}

/// The last non-empty part, or the empty sequence when all parts are empty.
pub open spec fn spec_last_nonempty(parts: Seq<Seq<char>>) -> Seq<char>
    decreases parts.len(),
{
    if parts.len() == 0 {
        Seq::empty()
    } else if parts.last().len() > 0 {
        parts.last()
    } else {
        spec_last_nonempty(parts.drop_last())
    }
}

/// Resolve carriage returns within one LF-delimited segment: keep the last
/// non-empty CR-separated field (or the empty field when none is non-empty).
pub open spec fn spec_cr_resolve(seg: Seq<char>) -> Seq<char> {
    spec_last_nonempty(spec_split(seg, '\r'))
}

/// A CSI parameter character: a digit, `;` or `?`.
pub open spec fn spec_is_csi_param(c: char) -> bool {
    (0x30 <= (c as u32) && (c as u32) <= 0x39) || c == ';' || c == '?'
}

/// A CSI intermediate character: the range from space to `/`.
pub open spec fn spec_is_csi_inter(c: char) -> bool {
    0x20 <= (c as u32) && (c as u32) <= 0x2F
}

/// A CSI final character: the range from `@` to `~`.
pub open spec fn spec_is_csi_final(c: char) -> bool {
    0x40 <= (c as u32) && (c as u32) <= 0x7E
}

/// The end of the run of characters satisfying `param` (then `inter`)
/// starting at `i`: first the parameter run, then the intermediate run.
pub open spec fn spec_run_end(s: Seq<char>, i: nat, inter: bool) -> nat
    decreases s.len() - i, (if inter { 0int } else { 1int }),
{
    if i < s.len() && !inter && spec_is_csi_param(s[i as int]) {
        spec_run_end(s, i + 1, false)
    } else if !inter {
        spec_run_end(s, i, true)
    } else if i < s.len() && spec_is_csi_inter(s[i as int]) {
        spec_run_end(s, i + 1, true)
    } else {
        i
    }
}

/// Strip ANSI CSI sequences: ESC `[`, a run of parameter characters, a run
/// of intermediate characters, and one final character.
pub open spec fn spec_csi_strip(s: Seq<char>) -> Seq<char>
    decreases s.len(),
{
    if s.len() == 0 {
        s
    } else if s.len() >= 2 && s[0] == '\u{001b}' && s[1] == '[' && ({
        let q = spec_run_end(s, 2, false);
        q < s.len() && spec_is_csi_final(s[q as int])
    }) {
        spec_csi_strip(s.skip(spec_run_end(s, 2, false) as int + 1))
    } else {
        seq![s[0]] + spec_csi_strip(s.skip(1))
    }
}

/// Remove BEL characters.
pub open spec fn spec_bel_strip(s: Seq<char>) -> Seq<char>
    decreases s.len(),
{
    if s.len() == 0 {
        s
    } else if s.last() == '\u{0007}' {
        spec_bel_strip(s.drop_last())
    } else {
        spec_bel_strip(s.drop_last()) + seq![s.last()]
    }
}

/// Apply a function to each LF-delimited segment and re-join with LF.
pub open spec fn spec_map_segments(s: Seq<char>, f: spec_fn(Seq<char>) -> Seq<char>) -> Seq<
    char,
> {
    spec_join(spec_split(s, '\n').map_values(f), seq!['\n'])
}

/// Terminal output normalization: apply backspaces, remove terminated OSC
/// sequences, drop unterminated OSC tails per line, resolve carriage returns
/// per line, strip CSI sequences, and remove remaining BEL characters.
pub open spec fn spec_normalize_terminal(raw: Seq<char>) -> Seq<char> {
    if raw.len() == 0 {
        raw
    } else {
        let s1 = spec_apply_backspaces(raw);
        let s2 = spec_osc_strip(s1);
        let s3 = spec_map_segments(s2, |line: Seq<char>| spec_osc_tail_strip(line));
        let s4 = spec_map_segments(s3, |seg: Seq<char>| spec_cr_resolve(seg));
        let s5 = spec_csi_strip(s4);
        spec_bel_strip(s5)
    }
}

/// Concatenation of a sequence of fragments.
pub open spec fn spec_concat(parts: Seq<Seq<char>>) -> Seq<char>
    decreases parts.len(),
{
    if parts.len() == 0 {
        Seq::empty()
    } else {
        spec_concat(parts.drop_last()) + parts.last()
    }
}

/// Remove leading whitespace characters.
pub open spec fn spec_trim_start(s: Seq<char>) -> Seq<char>
    decreases s.len(),
{
    if s.len() > 0 && spec_is_ws(s[0]) {
        spec_trim_start(s.skip(1))
    } else {
        s
    }
}

/// Sum of a sequence of token costs.
pub open spec fn spec_sum(costs: Seq<nat>) -> nat
    decreases costs.len(),
{
    if costs.len() == 0 {
        0
    } else {
        spec_sum(costs.drop_last()) + costs.last()
    }
}

/// Every character is whitespace.
pub open spec fn spec_all_ws(s: Seq<char>) -> bool {
    forall|i: int| 0 <= i < s.len() ==> spec_is_ws(#[trigger] s[i])
}

/// Remove trailing LF characters only.
pub open spec fn spec_trim_trailing_nl(s: Seq<char>) -> Seq<char>
    decreases s.len(),
{
    if s.len() > 0 && s.last() == '\n' {
        spec_trim_trailing_nl(s.drop_last())
    } else {
        s
    }
}

/// Strict lexicographic order is trichotomous.
pub proof fn lemma_lex_trichotomy(a: Seq<char>, b: Seq<char>)
    ensures
        a == b <==> (!spec_lex_lt(a, b) && !spec_lex_lt(b, a)),
    decreases a.len(),
{
    if a.len() > 0 && b.len() > 0 && a[0] == b[0] {
        lemma_lex_trichotomy(a.skip(1), b.skip(1));
        if a.skip(1) == b.skip(1) {
            assert forall|i: int| 0 <= i < a.len() implies a[i] == #[trigger] b[i] by {
                if i > 0 {
                    assert(a.skip(1)[i - 1] == b.skip(1)[i - 1]);
                }
            }
            assert(a =~= b);
        }
        if a == b {
            assert(a.skip(1) =~= b.skip(1));
        }
    } else if a.len() > 0 && b.len() > 0 {
        vstd::utf8::char_u32_cast(a[0], a[0] as u32);
        vstd::utf8::char_u32_cast(b[0], b[0] as u32);
        if !spec_lex_lt(a, b) && !spec_lex_lt(b, a) {
            assert((a[0] as u32) == (b[0] as u32));
            assert((a[0] as u32) as char == a[0]);
            assert(a[0] == b[0]);
        }
    } else if a.len() == 0 && b.len() == 0 {
        assert(a =~= b);
    }
}

/// Strict lexicographic order is transitive.
pub proof fn lemma_lex_trans(a: Seq<char>, b: Seq<char>, c: Seq<char>)
    requires
        spec_lex_lt(a, b),
        spec_lex_lt(b, c),
    ensures
        spec_lex_lt(a, c),
    decreases a.len(),
{
    if b.len() > 0 && c.len() > 0 && a.len() > 0 {
        if a[0] == b[0] && b[0] == c[0] {
            lemma_lex_trans(a.skip(1), b.skip(1), c.skip(1));
        }
    }
}

/// The number of `cat -n` rows over a line range.
pub proof fn lemma_numbered_rows_len(fields: Seq<Seq<char>>, lo: nat, hi: nat)
    ensures
        spec_numbered_rows(fields, lo, hi).len() == (if lo > hi { 0int } else { hi + 1 - lo }),
    decreases hi + 1 - lo,
{
    if lo <= hi {
        lemma_numbered_rows_len(fields, lo + 1, hi);
    }
}

/// Full line-numbered output renders one row per LF-split field: row `i`
/// carries the right-justified line number `i`, a tab and field `i - 1`,
/// and the rows are joined by LF.
pub proof fn lemma_line_numbered_full(content: Seq<char>)
    requires
        content.len() > 0,
    ensures
        ({
            let fields = spec_split(content, '\n');
            let rows = spec_numbered_rows(fields, 1, fields.len() as nat);
            &&& spec_line_numbered(content, None, None) == spec_join(rows, seq!['\n'])
            &&& rows.len() == fields.len()
            &&& forall|i: int|
                0 <= i < rows.len() ==> #[trigger] rows[i] == spec_pad6((i + 1) as nat) + seq![
                    '\t',
                ] + fields[i]
        }),
{
    let fields = spec_split(content, '\n');
    lemma_split_len_pos(content, '\n');
    lemma_numbered_rows_len(fields, 1, fields.len() as nat);
    lemma_numbered_rows_shape(fields, 1, fields.len() as nat);
}

/// Each row of a numbered range shows its own line number and field.
proof fn lemma_numbered_rows_shape(fields: Seq<Seq<char>>, lo: nat, hi: nat)
    requires
        1 <= lo,
        hi <= fields.len(),
    ensures
        forall|k: int|
            0 <= k < spec_numbered_rows(fields, lo, hi).len() ==> #[trigger] spec_numbered_rows(
                fields,
                lo,
                hi,
            )[k] == spec_pad6((lo + k) as nat) + seq!['\t'] + fields[lo + k - 1],
    decreases hi + 1 - lo,
{
    if lo <= hi {
        lemma_numbered_rows_shape(fields, lo + 1, hi);
        lemma_numbered_rows_len(fields, lo + 1, hi);
        assert forall|k: int|
            0 <= k < spec_numbered_rows(fields, lo, hi).len() implies #[trigger] spec_numbered_rows(
            fields,
            lo,
            hi,
        )[k] == spec_pad6((lo + k) as nat) + seq!['\t'] + fields[lo + k - 1] by {
            if k > 0 {
                assert(spec_numbered_rows(fields, lo, hi)[k] == spec_numbered_rows(
                    fields,
                    lo + 1,
                    hi,
                )[k - 1]);
            }
        }
    }
}

/// An edit whose offset lies past the end pads the content with spaces up
/// to the offset and appends the unescaped text.
pub proof fn lemma_apply_change_pads(
    content: Seq<char>,
    offset: nat,
    length: nat,
    new_text: Seq<char>,
)
    requires
        offset > content.len(),
    ensures
        spec_apply_change(content, offset, length, new_text) == content + spec_spaces(
            (offset - content.len()) as nat,
        ) + spec_unescape(new_text),
{
    let base = content + spec_spaces((offset - content.len()) as nat);
    lemma_spaces_len((offset - content.len()) as nat);
    assert(base.len() == offset);
    assert(base.take(offset as int) =~= base);
    assert(base.skip(offset as int) =~= Seq::<char>::empty());
    assert(base + spec_unescape(new_text) + Seq::<char>::empty() =~= base + spec_unescape(
        new_text,
    ));
}

/// The character `x` does not occur in `s`.
pub open spec fn no_char(s: Seq<char>, x: char) -> bool {
    forall|i: int| 0 <= i < s.len() ==> s[i] != x
}

/// Without backspaces, applying backspaces changes nothing.
proof fn lemma_bs_id(s: Seq<char>)
    requires
        no_char(s, '\u{0008}'),
    ensures
        spec_apply_backspaces(s) == s,
    decreases s.len(),
{
    if s.len() > 0 {
        assert(no_char(s.drop_last(), '\u{0008}'));
        lemma_bs_id(s.drop_last());
        assert(s.drop_last().push(s.last()) =~= s);
    }
}

/// Without the escape character, OSC stripping changes nothing.
proof fn lemma_osc_strip_id(s: Seq<char>)
    requires
        no_char(s, '\u{001b}'),
    ensures
        spec_osc_strip(s) == s,
    decreases s.len(),
{
    if s.len() > 0 {
        assert(forall|i: int| 0 <= i < s.skip(1).len() ==> #[trigger] s.skip(1)[i] == s[i + 1]);
        lemma_osc_strip_id(s.skip(1));
        assert(seq![s[0]] + s.skip(1) =~= s);
    }
}

/// Without the escape character, the OSC tail strip changes nothing.
proof fn lemma_osc_tail_id(line: Seq<char>)
    requires
        no_char(line, '\u{001b}'),
    ensures
        spec_osc_tail_strip(line) == line,
    decreases line.len(),
{
    if line.len() > 0 {
        assert(forall|i: int|
            0 <= i < line.skip(1).len() ==> #[trigger] line.skip(1)[i] == line[i + 1]);
        lemma_osc_tail_id(line.skip(1));
        assert(seq![line[0]] + line.skip(1) =~= line);
    }
}

/// Without the escape character, CSI stripping changes nothing.
proof fn lemma_csi_strip_id(s: Seq<char>)
    requires
        no_char(s, '\u{001b}'),
    ensures
        spec_csi_strip(s) == s,
    decreases s.len(),
{
    if s.len() > 0 {
        assert(forall|i: int| 0 <= i < s.skip(1).len() ==> #[trigger] s.skip(1)[i] == s[i + 1]);
        lemma_csi_strip_id(s.skip(1));
        assert(seq![s[0]] + s.skip(1) =~= s);
    }
}

/// Without BEL characters, BEL stripping changes nothing; its result never
/// holds BEL, and it introduces no new characters.
proof fn lemma_bel_strip_props(s: Seq<char>, x: char)
    ensures
        no_char(s, '\u{0007}') ==> spec_bel_strip(s) == s,
        no_char(spec_bel_strip(s), '\u{0007}'),
        no_char(s, x) ==> no_char(spec_bel_strip(s), x),
    decreases s.len(),
{
    if s.len() > 0 {
        lemma_bel_strip_props(s.drop_last(), x);
        if no_char(s, '\u{0007}') {
            assert(no_char(s.drop_last(), '\u{0007}'));
            assert(s.drop_last().push(s.last()) =~= s);
        }
    }
}

/// Splitting introduces no new characters: every part avoids whatever the
/// whole avoids, and every part avoids the separator.
proof fn lemma_split_chars(s: Seq<char>, c: char, x: char)
    ensures
        forall|k: int|
            0 <= k < spec_split(s, c).len() ==> no_char(#[trigger] spec_split(s, c)[k], c),
        no_char(s, x) ==> forall|k: int|
            0 <= k < spec_split(s, c).len() ==> no_char(#[trigger] spec_split(s, c)[k], x),
    decreases s.len(),
{
    if s.len() > 0 {
        assert(forall|i: int| 0 <= i < s.skip(1).len() ==> #[trigger] s.skip(1)[i] == s[i + 1]);
        lemma_split_chars(s.skip(1), c, x);
        let rest = spec_split(s.skip(1), c);
        if s[0] == c {
        } else {
            assert forall|k: int|
                0 <= k < spec_split(s, c).len() implies no_char(
                #[trigger] spec_split(s, c)[k],
                c,
            ) by {
                if k == 0 {
                    assert(spec_split(s, c)[0] == seq![s[0]] + rest[0]);
                    assert(no_char(rest[0], c));
                } else {
                    assert(spec_split(s, c)[k] == rest[k]);
                }
            }
            if no_char(s, x) {
                assert(no_char(s.skip(1), x));
                assert forall|k: int|
                    0 <= k < spec_split(s, c).len() implies no_char(
                    #[trigger] spec_split(s, c)[k],
                    x,
                ) by {
                    if k == 0 {
                        assert(spec_split(s, c)[0] == seq![s[0]] + rest[0]);
                        assert(no_char(rest[0], x));
                    } else {
                        assert(spec_split(s, c)[k] == rest[k]);
                    }
                }
            }
        }
    }
}

/// Joining the split parts with the separator restores the original.
proof fn lemma_join_split(s: Seq<char>, c: char)
    ensures
        spec_join(spec_split(s, c), seq![c]) == s,
    decreases s.len(),
{
    if s.len() == 0 {
        assert(spec_join(spec_split(s, c), seq![c]) =~= s);
    } else {
        lemma_join_split(s.skip(1), c);
        lemma_split_len_pos(s.skip(1), c);
        let rest = spec_split(s.skip(1), c);
        if s[0] == c {
            assert(spec_split(s, c) == seq![Seq::<char>::empty()] + rest);
            assert((seq![Seq::<char>::empty()] + rest).skip(1) =~~= rest);
            assert(spec_join(spec_split(s, c), seq![c]) =~= Seq::<char>::empty() + seq![c]
                + spec_join(rest, seq![c]));
            assert(Seq::<char>::empty() + seq![c] + s.skip(1) =~= s);
        } else {
            let head = seq![s[0]] + rest[0];
            assert(spec_split(s, c) == seq![head] + rest.skip(1));
            if rest.len() == 1 {
                assert((seq![head] + rest.skip(1)) =~~= seq![head]);
                assert(spec_join(seq![head], seq![c]) == head);
                assert(spec_join(rest, seq![c]) == rest[0]);
                assert(seq![s[0]] + rest[0] =~= s);
            } else {
                assert((seq![head] + rest.skip(1)).len() >= 2);
                assert((seq![head] + rest.skip(1))[0] == head);
                assert((seq![head] + rest.skip(1)).skip(1) =~~= rest.skip(1));
                assert(spec_join(spec_split(s, c), seq![c]) == head + seq![c] + spec_join(
                    rest.skip(1),
                    seq![c],
                ));
                assert(spec_join(rest, seq![c]) == rest[0] + seq![c] + spec_join(
                    rest.skip(1),
                    seq![c],
                ));
                assert(seq![s[0]] + rest[0] + seq![c] + spec_join(rest.skip(1), seq![c]) =~= seq![
                    s[0],
                ] + (rest[0] + seq![c] + spec_join(rest.skip(1), seq![c])));
                assert(seq![s[0]] + s.skip(1) =~= s);
            }
        }
    }
}

/// Joining avoids every character that the parts and the separator avoid.
proof fn lemma_join_chars(parts: Seq<Seq<char>>, sep: Seq<char>, x: char)
    requires
        forall|k: int| 0 <= k < parts.len() ==> no_char(#[trigger] parts[k], x),
        no_char(sep, x),
    ensures
        no_char(spec_join(parts, sep), x),
    decreases parts.len(),
{
    if parts.len() > 1 {
        assert(forall|i: int|
            0 <= i < parts.skip(1).len() ==> #[trigger] parts.skip(1)[i] == parts[i + 1]);
        lemma_join_chars(parts.skip(1), sep, x);
        assert(no_char(parts[0], x));
    } else if parts.len() == 1 {
        assert(no_char(parts[0], x));
    }
}

/// The last non-empty part avoids whatever all the parts avoid.
proof fn lemma_last_nonempty_chars(parts: Seq<Seq<char>>, x: char)
    requires
        forall|k: int| 0 <= k < parts.len() ==> no_char(#[trigger] parts[k], x),
    ensures
        no_char(spec_last_nonempty(parts), x),
    decreases parts.len(),
{
    if parts.len() > 0 && parts.last().len() == 0 {
        lemma_last_nonempty_chars(parts.drop_last(), x);
    }
}

/// Without carriage returns, resolving them changes nothing.
proof fn lemma_cr_resolve_id(seg: Seq<char>)
    requires
        no_char(seg, '\r'),
    ensures
        spec_cr_resolve(seg) == seg,
    decreases seg.len(),
{
    lemma_split_no_sep(seg, '\r');
    assert(spec_split(seg, '\r') == seq![seg]);
    if seg.len() == 0 {
        assert(seq![seg].drop_last() =~~= Seq::<Seq<char>>::empty());
        assert(spec_last_nonempty(Seq::<Seq<char>>::empty()) =~= Seq::<char>::empty());
        assert(spec_last_nonempty(seq![seg]) =~= seg);
    } else {
        assert(spec_last_nonempty(seq![seg]) == seg);
    }
}

/// Splitting on an absent separator yields one part: the whole.
proof fn lemma_split_no_sep(s: Seq<char>, c: char)
    requires
        no_char(s, c),
    ensures
        spec_split(s, c) == seq![s],
    decreases s.len(),
{
    if s.len() > 0 {
        assert(forall|i: int| 0 <= i < s.skip(1).len() ==> #[trigger] s.skip(1)[i] == s[i + 1]);
        lemma_split_no_sep(s.skip(1), c);
        assert(seq![s[0]] + s.skip(1) =~= s);
        assert(spec_split(s, c) =~~= seq![s]);
    } else {
        assert(s =~= Seq::<char>::empty());
        assert(spec_split(s, c) =~~= seq![s]);
    }
}

/// Mapping the identity over the split parts and re-joining restores the
/// original text.
proof fn lemma_map_segments_id(s: Seq<char>, f: spec_fn(Seq<char>) -> Seq<char>)
    requires
        forall|k: int|
            0 <= k < spec_split(s, '\n').len() ==> f(#[trigger] spec_split(s, '\n')[k])
                == spec_split(s, '\n')[k],
    ensures
        spec_map_segments(s, f) == s,
{
    let parts = spec_split(s, '\n');
    assert(parts.map_values(f) =~~= parts);
    lemma_join_split(s, '\n');
}

/// Characters of the cr-resolved segments: no carriage returns survive,
/// and no new characters appear.
proof fn lemma_cr_segments_chars(s: Seq<char>, x: char)
    ensures
        no_char(spec_map_segments(s, |seg: Seq<char>| spec_cr_resolve(seg)), '\r'),
        no_char(s, x) && x != '\n' ==> no_char(
            spec_map_segments(s, |seg: Seq<char>| spec_cr_resolve(seg)),
            x,
        ),
{
    let f = |seg: Seq<char>| spec_cr_resolve(seg);
    let parts = spec_split(s, '\n');
    lemma_split_chars(s, '\n', x);
    assert forall|k: int| 0 <= k < parts.map_values(f).len() implies no_char(
        #[trigger] parts.map_values(f)[k],
        '\r',
    ) by {
        lemma_split_chars(parts[k], '\r', x);
        lemma_last_nonempty_chars(spec_split(parts[k], '\r'), '\r');
        assert(forall|t: int|
            0 <= t < spec_split(parts[k], '\r').len() ==> no_char(
                #[trigger] spec_split(parts[k], '\r')[t],
                '\r',
            ));
    }
    assert(no_char(seq!['\n'], '\r'));
    lemma_join_chars(parts.map_values(f), seq!['\n'], '\r');
    if no_char(s, x) && x != '\n' {
        assert forall|k: int| 0 <= k < parts.map_values(f).len() implies no_char(
            #[trigger] parts.map_values(f)[k],
            x,
        ) by {
            assert(no_char(parts[k], x));
            lemma_split_chars(parts[k], '\r', x);
            lemma_last_nonempty_chars(spec_split(parts[k], '\r'), x);
        }
        assert(no_char(seq!['\n'], x));
        lemma_join_chars(parts.map_values(f), seq!['\n'], x);
    }
}

/// Terminal normalization is idempotent on input free of backspaces and
/// escape characters.
pub proof fn lemma_normalize_idempotent(x: Seq<char>)
    requires
        no_char(x, '\u{0008}'),
        no_char(x, '\u{001b}'),
    ensures
        spec_normalize_terminal(spec_normalize_terminal(x)) == spec_normalize_terminal(x),
{
    if x.len() == 0 {
        return;
    }
    // First pass: backspace application and both OSC passes are identities,
    // carriage-return resolution removes every CR, CSI stripping is an
    // identity, and BEL stripping leaves no BEL.
    lemma_bs_id(x);
    lemma_osc_strip_id(x);
    lemma_split_chars(x, '\n', '\u{001b}');
    assert forall|k: int|
        0 <= k < spec_split(x, '\n').len() implies (|line: Seq<char>| spec_osc_tail_strip(line))(
        #[trigger] spec_split(x, '\n')[k],
    ) == spec_split(x, '\n')[k] by {
        lemma_osc_tail_id(spec_split(x, '\n')[k]);
    }
    lemma_map_segments_id(x, |line: Seq<char>| spec_osc_tail_strip(line));
    let s4 = spec_map_segments(x, |seg: Seq<char>| spec_cr_resolve(seg));
    lemma_cr_segments_chars(x, '\u{001b}');
    lemma_cr_segments_chars(x, '\u{0008}');
    lemma_csi_strip_id(s4);
    let n1 = spec_bel_strip(s4);
    lemma_bel_strip_props(s4, '\u{001b}');
    lemma_bel_strip_props(s4, '\u{0008}');
    lemma_bel_strip_props(s4, '\r');
    assert(spec_normalize_terminal(x) == n1);
    // Second pass: the output has no backspace, escape, carriage return or
    // BEL, so every stage is an identity.
    if n1.len() > 0 {
        lemma_bs_id(n1);
        lemma_osc_strip_id(n1);
        lemma_split_chars(n1, '\n', '\r');
        lemma_split_chars(n1, '\n', '\u{001b}');
        assert forall|k: int|
            0 <= k < spec_split(n1, '\n').len() implies (|line: Seq<char>| spec_osc_tail_strip(
            line,
        ))(#[trigger] spec_split(n1, '\n')[k]) == spec_split(n1, '\n')[k] by {
            lemma_osc_tail_id(spec_split(n1, '\n')[k]);
        }
        lemma_map_segments_id(n1, |line: Seq<char>| spec_osc_tail_strip(line));
        assert forall|k: int|
            0 <= k < spec_split(n1, '\n').len() implies (|seg: Seq<char>| spec_cr_resolve(seg))(
            #[trigger] spec_split(n1, '\n')[k],
        ) == spec_split(n1, '\n')[k] by {
            lemma_cr_resolve_id(spec_split(n1, '\n')[k]);
        }
        lemma_map_segments_id(n1, |seg: Seq<char>| spec_cr_resolve(seg));
        lemma_csi_strip_id(n1);
        lemma_bel_strip_props(n1, '\r');
    }
}

/// Trailing-whitespace removal empties an all-whitespace sequence.
pub proof fn lemma_trim_end_all_ws(s: Seq<char>)
    requires
        spec_all_ws(s),
    ensures
        spec_trim_end(s).len() == 0,
    decreases s.len(),
{
    if s.len() > 0 {
        assert(spec_all_ws(s.drop_last()));
        lemma_trim_end_all_ws(s.drop_last());
    }
}

/// Leading-whitespace removal drops exactly the whitespace prefix.
pub proof fn lemma_trim_start_prefix(s: Seq<char>, a: nat)
    requires
        a <= s.len(),
        forall|k: int| 0 <= k < a ==> spec_is_ws(#[trigger] s[k]),
        a < s.len() ==> !spec_is_ws(s[a as int]),
    ensures
        spec_trim_start(s) == s.skip(a as int),
    decreases a,
{
    if a == 0 {
        assert(s.skip(0) =~= s);
    } else {
        assert(forall|k: int|
            0 <= k < s.skip(1).len() ==> #[trigger] s.skip(1)[k] == s[k + 1]);
        lemma_trim_start_prefix(s.skip(1), (a - 1) as nat);
        assert(s.skip(1).skip(a as int - 1) =~= s.skip(a as int));
    }
}

/// Character counts grow with the prefix.
pub proof fn lemma_count_mono(s: Seq<char>, c: char, a: int, b: int)
    requires
        0 <= a <= b <= s.len(),
    ensures
        spec_count_char(s.take(a), c) <= spec_count_char(s.take(b), c),
    decreases b - a,
{
    if a < b {
        lemma_count_mono(s, c, a, b - 1);
        assert(s.take(b).drop_last() =~= s.take(b - 1));
    }
}

} // verus!
