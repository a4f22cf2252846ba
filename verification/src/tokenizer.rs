//! The tokenization pipeline: character-level splitting under
//! separator, scope and escape rules; fixed-point aggregation of
//! adjacent fragments; and classification of each final fragment.
//!
//! Every loop and every recursion here carries a `decreases` measure,
//! so a tokenization call terminates on any input.

use vstd::prelude::*;
use vstd::string::StringExecFns;
use crate::options::{
    TokenizerOptions, Separator, IncludeMode, Scope, EndOfLine, SplitAggregator, Matcher, MatcherV,
    matcher_matches,
};
use crate::split::{SplitItem, SplitItemV, item_views};
use crate::token::{Token, TokenV, spec_build};
use crate::text::{to_char_vec, chars_to_string, char_string, subvec, translate_escape,
    translate_escape_char};

verus! {

// ------------------------------------------------------------------
// The splitter, in mathematics: a state machine over the input
// characters. `spec_normal` mirrors the normal-mode scan,
// `spec_scoped` the scan inside a delimited region, and
// `spec_escaped` the consumption of the one character after a
// backslash. Each takes the input `cs`, the index `j` of the next
// character, the current buffer and position, and returns what is
// emitted together with the state left behind.
// ------------------------------------------------------------------

/// Spec: the first separator at or after index `k` matching `c`.
pub open spec fn first_sep_from(seps: Seq<Separator>, c: char, k: int) -> Option<Separator>
    decreases seps.len() - k,
{
    if k < 0 || k >= seps.len() {
        None
    } else if seps[k].cmatch == c {
        Some(seps[k])
    } else {
        first_sep_from(seps, c, k + 1)
    }
}

/// Spec: the first separator matching `c`, in table order.
pub open spec fn first_sep(seps: Seq<Separator>, c: char) -> Option<Separator> {
    first_sep_from(seps, c, 0)
}

/// Spec: the first scope at or after index `k` whose begin delimiter
/// is `c`.
pub open spec fn first_scope_from(scopes: Seq<Scope>, c: char, k: int) -> Option<Scope>
    decreases scopes.len() - k,
{
    if k < 0 || k >= scopes.len() {
        None
    } else if scopes[k].begin == c {
        Some(scopes[k])
    } else {
        first_scope_from(scopes, c, k + 1)
    }
}

/// Spec: the first scope whose begin delimiter is `c`, in table order.
pub open spec fn first_scope(scopes: Seq<Scope>, c: char) -> Option<Scope> {
    first_scope_from(scopes, c, 0)
}

/// Spec: position bookkeeping for one consumed character: the column
/// advances by one, except that a line terminator resets it to zero
/// and advances the line.
pub open spec fn advance_pos(pos: int, line: int, c: char, eols: Seq<char>) -> (int, int) {
    if eols.contains(c) {
        (0, line + 1)
    } else {
        (pos + 1, line)
    }
}

/// Spec: a fragment flushed at the current position.
pub open spec fn item_of(text: Seq<char>, pos: int, line: int) -> SplitItemV {
    SplitItemV { text, pos, line }
}

/// Spec: the buffer with its last character removed, if any.
pub open spec fn pop_last(s: Seq<char>) -> Seq<char> {
    if s.len() > 0 {
        s.drop_last()
    } else {
        s
    }
}

/// Spec: what a matching separator emits, and the buffer it leaves.
/// `buf1` is the buffer with the separator character already appended.
pub open spec fn sep_flush(buf1: Seq<char>, c: char, sep: Separator, pos: int, line: int) -> (
    Seq<SplitItemV>,
    Seq<char>,
) {
    match sep.mode {
        IncludeMode::Aggregate => (seq![item_of(buf1, pos, line)], Seq::<char>::empty()),
        IncludeMode::Separate => (
            seq![item_of(buf1.drop_last(), pos, line), item_of(seq![c], pos, line)],
            Seq::<char>::empty(),
        ),
        IncludeMode::Discard => (seq![item_of(buf1.drop_last(), pos, line)], Seq::<char>::empty()),
    }
}

/// Spec: escaped-mode consumes the character after a backslash, if
/// any, appending its translation to the buffer; a trailing backslash
/// consumes nothing. Returns the buffer, the next index, and the
/// position.
pub open spec fn spec_escaped(
    cs: Seq<char>,
    j: int,
    buf: Seq<char>,
    pos: int,
    line: int,
    eols: Seq<char>,
) -> (Seq<char>, int, int, int) {
    if 0 <= j < cs.len() {
        let pl = advance_pos(pos, line, cs[j], eols);
        (buf.push(translate_escape(cs[j])), j + 1, pl.0, pl.1)
    } else {
        (buf, j, pos, line)
    }
}

/// Spec: scoped-mode consumes characters verbatim until the end
/// delimiter, honoring escapes, and flushes the region (delimiters
/// included) as one fragment; if the input ends first, whatever was
/// accumulated is flushed. Returns the emitted fragments, the next
/// index, and the position.
pub open spec fn spec_scoped(
    cs: Seq<char>,
    j: int,
    buf: Seq<char>,
    pos: int,
    line: int,
    endc: char,
    eols: Seq<char>,
) -> (Seq<SplitItemV>, int, int, int)
    decreases cs.len() - j,
{
    if j < 0 || j >= cs.len() {
        (
            if buf.len() > 0 {
                seq![item_of(buf, pos, line)]
            } else {
                Seq::<SplitItemV>::empty()
            },
            j,
            pos,
            line,
        )
    } else {
        let c = cs[j];
        let buf1 = buf.push(c);
        if c == endc {
            let pl = advance_pos(pos, line, c, eols);
            (seq![item_of(buf1, pos, line)], j + 1, pl.0, pl.1)
        } else if c == '\\' {
            let e = spec_escaped(cs, j + 1, buf, pos, line, eols);
            let pl = advance_pos(e.2, e.3, c, eols);
            spec_scoped(cs, e.1, e.0, pl.0, pl.1, endc, eols)
        } else {
            let pl = advance_pos(pos, line, c, eols);
            spec_scoped(cs, j + 1, buf1, pl.0, pl.1, endc, eols)
        }
    }
}

/// The index a scoped-mode scan stops at lies between `j` and the end
/// of the input, and each consumed character advances the column or
/// the line by at most one.
proof fn lemma_scoped_advances(
    cs: Seq<char>,
    j: int,
    buf: Seq<char>,
    pos: int,
    line: int,
    endc: char,
    eols: Seq<char>,
)
    requires
        0 <= j <= cs.len(),
        0 <= pos,
        0 <= line,
    ensures
        ({
            let sr = spec_scoped(cs, j, buf, pos, line, endc, eols);
            &&& j <= sr.1 <= cs.len()
            &&& 0 <= sr.2
            &&& 0 <= sr.3
            &&& sr.2 + (cs.len() - sr.1) <= pos + (cs.len() - j)
            &&& sr.3 + (cs.len() - sr.1) <= line + (cs.len() - j)
        }),
    decreases cs.len() - j,
{
    if j < cs.len() {
        let c = cs[j];
        if c == endc {
        } else if c == '\\' {
            let e = spec_escaped(cs, j + 1, buf, pos, line, eols);
            let pl = advance_pos(e.2, e.3, c, eols);
            lemma_scoped_advances(cs, e.1, e.0, pl.0, pl.1, endc, eols);
        } else {
            let pl = advance_pos(pos, line, c, eols);
            lemma_scoped_advances(cs, j + 1, buf.push(c), pl.0, pl.1, endc, eols);
        }
    }
}

/// Spec: the normal-mode scan from index `j` with the given buffer.
/// For each character: append it; flush on the first matching
/// separator; on a scope begin delimiter, drop the appended character
/// and scan the scoped region; on a backslash, drop it and translate
/// the next character; then advance the position. At the end of the
/// input a non-empty buffer is flushed. Returns the emitted fragments
/// and the final position.
pub open spec fn spec_normal(
    cs: Seq<char>,
    j: int,
    buf: Seq<char>,
    pos: int,
    line: int,
    seps: Seq<Separator>,
    scopes: Seq<Scope>,
    eols: Seq<char>,
) -> (Seq<SplitItemV>, int, int)
    decreases cs.len() - j,
        via spec_normal_decreases
{
    if j < 0 || j >= cs.len() {
        (
            if buf.len() > 0 {
                seq![item_of(buf, pos, line)]
            } else {
                Seq::<SplitItemV>::empty()
            },
            pos,
            line,
        )
    } else {
        let c = cs[j];
        let buf1 = buf.push(c);
        let se = match first_sep(seps, c) {
            Some(sep) => sep_flush(buf1, c, sep, pos, line),
            None => (Seq::<SplitItemV>::empty(), buf1),
        };
        match first_scope(scopes, c) {
            Some(sc) => {
                let sr = spec_scoped(cs, j + 1, seq![sc.begin], pos, line, sc.end, eols);
                if c == '\\' {
                    let e = spec_escaped(cs, sr.1, pop_last(pop_last(se.1)), sr.2, sr.3, eols);
                    let pl = advance_pos(e.2, e.3, c, eols);
                    let rest = spec_normal(cs, e.1, e.0, pl.0, pl.1, seps, scopes, eols);
                    (se.0 + sr.0 + rest.0, rest.1, rest.2)
                } else {
                    let pl = advance_pos(sr.2, sr.3, c, eols);
                    let rest = spec_normal(cs, sr.1, pop_last(se.1), pl.0, pl.1, seps, scopes, eols);
                    (se.0 + sr.0 + rest.0, rest.1, rest.2)
                }
            },
            None => {
                if c == '\\' {
                    let e = spec_escaped(cs, j + 1, pop_last(se.1), pos, line, eols);
                    let pl = advance_pos(e.2, e.3, c, eols);
                    let rest = spec_normal(cs, e.1, e.0, pl.0, pl.1, seps, scopes, eols);
                    (se.0 + rest.0, rest.1, rest.2)
                } else {
                    let pl = advance_pos(pos, line, c, eols);
                    let rest = spec_normal(cs, j + 1, se.1, pl.0, pl.1, seps, scopes, eols);
                    (se.0 + rest.0, rest.1, rest.2)
                }
            },
        }
    }
}

#[via_fn]
proof fn spec_normal_decreases(
    cs: Seq<char>,
    j: int,
    buf: Seq<char>,
    pos: int,
    line: int,
    seps: Seq<Separator>,
    scopes: Seq<Scope>,
    eols: Seq<char>,
)
{
    if 0 <= j < cs.len() {
        match first_scope(scopes, cs[j]) {
            Some(sc) => {
                lemma_scoped_loose_advances(cs, j + 1, seq![sc.begin], pos, line, sc.end, eols);
            },
            None => {},
        }
    }
}

/// As [`lemma_scoped_advances`], but without any requirement on the
/// starting position, for use in termination proofs.
proof fn lemma_scoped_loose_advances(
    cs: Seq<char>,
    j: int,
    buf: Seq<char>,
    pos: int,
    line: int,
    endc: char,
    eols: Seq<char>,
)
    requires
        0 <= j <= cs.len(),
    ensures
        ({
            let sr = spec_scoped(cs, j, buf, pos, line, endc, eols);
            j <= sr.1 <= cs.len()
        }),
    decreases cs.len() - j,
{
    if j < cs.len() {
        let c = cs[j];
        if c == endc {
        } else if c == '\\' {
            let e = spec_escaped(cs, j + 1, buf, pos, line, eols);
            let pl = advance_pos(e.2, e.3, c, eols);
            lemma_scoped_loose_advances(cs, e.1, e.0, pl.0, pl.1, endc, eols);
        } else {
            let pl = advance_pos(pos, line, c, eols);
            lemma_scoped_loose_advances(cs, j + 1, buf.push(c), pl.0, pl.1, endc, eols);
        }
    }
}

/// Pushing an item maps to pushing its view.
proof fn lemma_item_views_push(s: Seq<SplitItem>, x: SplitItem)
    ensures
        item_views(s.push(x)) == item_views(s).push(x@),
{
    assert(item_views(s.push(x)) =~= item_views(s).push(x@));
}

/// Concatenating item sequences maps to concatenating their views.
proof fn lemma_item_views_concat(a: Seq<SplitItem>, b: Seq<SplitItem>)
    ensures
        item_views(a + b) == item_views(a) + item_views(b),
{
    assert(item_views(a + b) =~= item_views(a) + item_views(b));
}

// ------------------------------------------------------------------
// Exec splitter
// ------------------------------------------------------------------

/// The first separator of the table matching `c`, if any.
fn find_separator(separators: &Vec<Separator>, c: char) -> (r: Option<Separator>)
    ensures
        r == first_sep(separators@, c),
{
    let mut i: usize = 0;
    while i < separators.len()
        invariant
            i <= separators@.len(),
            first_sep(separators@, c) == first_sep_from(separators@, c, i as int),
        decreases separators@.len() - i,
    {
        if separators[i].cmatch == c {
            return Some(separators[i]);
        }
        i = i + 1;
    }
    None
}

/// The first scope of the table whose begin delimiter is `c`, if any.
fn find_scope(scopes: &Vec<Scope>, c: char) -> (r: Option<Scope>)
    ensures
        r == first_scope(scopes@, c),
{
    let mut i: usize = 0;
    while i < scopes.len()
        invariant
            i <= scopes@.len(),
            first_scope(scopes@, c) == first_scope_from(scopes@, c, i as int),
        decreases scopes@.len() - i,
    {
        if scopes[i].begin == c {
            return Some(scopes[i]);
        }
        i = i + 1;
    }
    None
}

/// Is `c` one of the configured line terminators?
fn is_eol_char(c: char, eofs: &Vec<EndOfLine>) -> (r: bool)
    ensures
        r == eofs@.map_values(|e: EndOfLine| e.eof).contains(c),
{
    let ghost mapped = eofs@.map_values(|e: EndOfLine| e.eof);
    let mut i: usize = 0;
    while i < eofs.len()
        invariant
            i <= eofs@.len(),
            mapped == eofs@.map_values(|e: EndOfLine| e.eof),
            forall|k: int| 0 <= k < i ==> mapped[k] != c,
        decreases eofs@.len() - i,
    {
        if eofs[i].eof == c {
            proof {
                assert(mapped[i as int] == c);
            }
            return true;
        }
        i = i + 1;
    }
    false
}

/// Advances the running position for one consumed character: the
/// column grows by one, and a line terminator resets it to zero and
/// starts the next line.
pub fn process_position_and_eof(c: char, position: &mut i32, line: &mut i32, eofs: &Vec<EndOfLine>)
    requires
        *old(position) < 0x7fff_ffff,
        *old(line) < 0x7fff_ffff,
    ensures
        (*final(position) as int, *final(line) as int) == advance_pos(
            *old(position) as int,
            *old(line) as int,
            c,
            eofs@.map_values(|e: EndOfLine| e.eof),
        ),
{
    *position = *position + 1;
    if is_eol_char(c, eofs) {
        *position = 0;
        *line = *line + 1;
    }
}

/// Consumes the one character following a backslash, if any, and
/// appends its translation (`n`, `r`, `t` become the control
/// characters; anything else passes through) to the buffer. A
/// backslash at the very end of the input consumes nothing.
pub fn split_string_escaped_mode(
    text: &Vec<char>,
    i: &mut usize,
    position: &mut i32,
    line: &mut i32,
    options: &TokenizerOptions,
    current: &mut Vec<char>,
)
    requires
        *old(i) <= text@.len(),
        *old(position) < 0x7fff_ffff,
        *old(line) < 0x7fff_ffff,
    ensures
        ({
            let e = spec_escaped(
                text@,
                *old(i) as int,
                old(current)@,
                *old(position) as int,
                *old(line) as int,
                options.eols(),
            );
            &&& final(current)@ == e.0
            &&& *final(i) as int == e.1
            &&& *final(position) as int == e.2
            &&& *final(line) as int == e.3
        }),
{
    if *i < text.len() {
        let c = text[*i];
        *i = *i + 1;
        current.push(translate_escape_char(c));
        process_position_and_eof(c, position, line, &options.end_of_lines);
    }
}

/// Scans a delimited region verbatim: characters are accumulated
/// (escapes honored) until the end delimiter, and the whole region,
/// both delimiters included, is flushed as a single fragment. If the
/// input ends first, whatever was accumulated is flushed.
pub fn split_string_scoped_mode(
    text: &Vec<char>,
    i: &mut usize,
    position: &mut i32,
    line: &mut i32,
    options: &TokenizerOptions,
    list: &mut Vec<SplitItem>,
    scope: &Scope,
)
    requires
        *old(i) <= text@.len(),
        0 <= *old(position),
        0 <= *old(line),
        *old(position) + (text@.len() - *old(i)) < 0x7fff_ffff,
        *old(line) + (text@.len() - *old(i)) < 0x7fff_ffff,
    ensures
        ({
            let sr = spec_scoped(
                text@,
                *old(i) as int,
                seq![scope.begin],
                *old(position) as int,
                *old(line) as int,
                scope.end,
                options.eols(),
            );
            &&& item_views(final(list)@) == item_views(old(list)@) + sr.0
            &&& *final(i) as int == sr.1
            &&& *final(position) as int == sr.2
            &&& *final(line) as int == sr.3
        }),
{
    let ghost sr = spec_scoped(
        text@,
        *i as int,
        seq![scope.begin],
        *position as int,
        *line as int,
        scope.end,
        options.eols(),
    );
    let ghost pbound = *position + (text@.len() - *i);
    let ghost lbound = *line + (text@.len() - *i);
    let mut idx: usize = *i;
    let mut pos: i32 = *position;
    let mut ln: i32 = *line;
    let mut closed = false;
    let mut out: Vec<SplitItem> = Vec::new();
    let mut current: Vec<char> = Vec::new();
    current.push(scope.begin);
    proof {
        assert(current@ =~= seq![scope.begin]);
    }
    while !closed && idx < text.len()
        invariant
            *i == *old(i),
            *position == *old(position),
            *line == *old(line),
            list@ == old(list)@,
            idx <= text@.len(),
            0 <= pos,
            0 <= ln,
            pos + (text@.len() - idx) <= pbound,
            ln + (text@.len() - idx) <= lbound,
            pbound < 0x7fff_ffff,
            lbound < 0x7fff_ffff,
            closed ==> {
                &&& sr.0 == item_views(out@)
                &&& sr.1 == idx as int
                &&& sr.2 == pos as int
                &&& sr.3 == ln as int
                &&& current@.len() == 0
            },
            !closed ==> ({
                let cur = spec_scoped(
                    text@,
                    idx as int,
                    current@,
                    pos as int,
                    ln as int,
                    scope.end,
                    options.eols(),
                );
                &&& sr.0 == item_views(out@) + cur.0
                &&& sr.1 == cur.1
                &&& sr.2 == cur.2
                &&& sr.3 == cur.3
            }),
        decreases text@.len() - idx,
    {
        let ghost cur = spec_scoped(
            text@,
            idx as int,
            current@,
            pos as int,
            ln as int,
            scope.end,
            options.eols(),
        );
        let ghost oidx = idx as int;
        let ghost obuf = current@;
        let ghost opos = pos as int;
        let ghost oln = ln as int;
        let c = text[idx];
        idx = idx + 1;
        current.push(c);
        if scope.end == c {
            proof {
                let pl = advance_pos(opos, oln, c, options.eols());
                assert(cur == (
                    seq![item_of(obuf.push(c), opos, oln)],
                    oidx + 1,
                    pl.0,
                    pl.1,
                ));
            }
            let item = SplitItem::new_pl(chars_to_string(&current), pos, ln);
            proof {
                lemma_item_views_push(out@, item);
            }
            out.push(item);
            process_position_and_eof(c, &mut pos, &mut ln, &options.end_of_lines);
            current.clear();
            closed = true;
            proof {
                assert(sr.0 =~= item_views(out@));
            }
            continue ;
        }
        if c == '\\' {
            proof {
                assert(obuf.push(c).drop_last() =~= obuf);
            }
            current.pop();
            split_string_escaped_mode(text, &mut idx, &mut pos, &mut ln, options, &mut current);
        }
        process_position_and_eof(c, &mut pos, &mut ln, &options.end_of_lines);
        proof {
            if c == '\\' {
                let e = spec_escaped(text@, oidx + 1, obuf, opos, oln, options.eols());
                let pl = advance_pos(e.2, e.3, c, options.eols());
                assert(cur == spec_scoped(
                    text@,
                    e.1,
                    e.0,
                    pl.0,
                    pl.1,
                    scope.end,
                    options.eols(),
                ));
                assert(idx as int == e.1 && current@ == e.0 && pos as int == pl.0 && ln as int
                    == pl.1);
            } else {
                let pl = advance_pos(opos, oln, c, options.eols());
                assert(cur == spec_scoped(
                    text@,
                    oidx + 1,
                    obuf.push(c),
                    pl.0,
                    pl.1,
                    scope.end,
                    options.eols(),
                ));
            }
        }
    }
    proof {
        if !closed {
            assert(spec_scoped(
                text@,
                idx as int,
                current@,
                pos as int,
                ln as int,
                scope.end,
                options.eols(),
            ) == (
                if current@.len() > 0 {
                    seq![item_of(current@, pos as int, ln as int)]
                } else {
                    Seq::<SplitItemV>::empty()
                },
                idx as int,
                pos as int,
                ln as int,
            ));
        }
    }
    if current.len() > 0 {
        let item = SplitItem::new_pl(chars_to_string(&current), pos, ln);
        proof {
            lemma_item_views_push(out@, item);
        }
        out.push(item);
    }
    *i = idx;
    *position = pos;
    *line = ln;
    proof {
        lemma_item_views_concat(list@, out@);
        assert(sr.0 =~= item_views(out@));
    }
    list.append(&mut out);
}

/// The normal-mode scan over the whole input: each character is
/// appended to the running buffer, then checked against the separator
/// table, the scope table and the backslash escape, and the position
/// is advanced. At the end of the input a non-empty buffer is flushed
/// as a final fragment. Appends the fragments to `list`.
pub fn split_string_normal_mode(
    text: &Vec<char>,
    position: &mut i32,
    line: &mut i32,
    options: &TokenizerOptions,
    list: &mut Vec<SplitItem>,
)
    requires
        0 <= *old(position),
        0 <= *old(line),
        *old(position) + text@.len() < 0x7fff_ffff,
        *old(line) + text@.len() < 0x7fff_ffff,
    ensures
        ({
            let nr = spec_normal(
                text@,
                0,
                Seq::<char>::empty(),
                *old(position) as int,
                *old(line) as int,
                options.seps(),
                options.scopes@,
                options.eols(),
            );
            &&& item_views(final(list)@) == item_views(old(list)@) + nr.0
            &&& *final(position) as int == nr.1
            &&& *final(line) as int == nr.2
        }),
{
    let ghost nr = spec_normal(
        text@,
        0,
        Seq::<char>::empty(),
        *position as int,
        *line as int,
        options.seps(),
        options.scopes@,
        options.eols(),
    );
    let ghost pbound = *position + text@.len();
    let ghost lbound = *line + text@.len();
    let mut idx: usize = 0;
    let mut pos: i32 = *position;
    let mut ln: i32 = *line;
    let mut out: Vec<SplitItem> = Vec::new();
    let mut current: Vec<char> = Vec::new();
    while idx < text.len()
        invariant
            *position == *old(position),
            *line == *old(line),
            list@ == old(list)@,
            idx <= text@.len(),
            0 <= pos,
            0 <= ln,
            pos + (text@.len() - idx) <= pbound,
            ln + (text@.len() - idx) <= lbound,
            pbound < 0x7fff_ffff,
            lbound < 0x7fff_ffff,
            ({
                let cur = spec_normal(
                    text@,
                    idx as int,
                    current@,
                    pos as int,
                    ln as int,
                    options.seps(),
                    options.scopes@,
                    options.eols(),
                );
                &&& nr.0 == item_views(out@) + cur.0
                &&& nr.1 == cur.1
                &&& nr.2 == cur.2
            }),
        decreases text@.len() - idx,
    {
        let ghost cur = spec_normal(
            text@,
            idx as int,
            current@,
            pos as int,
            ln as int,
            options.seps(),
            options.scopes@,
            options.eols(),
        );
        let ghost oidx = idx as int;
        let ghost obuf = current@;
        let ghost opos = pos as int;
        let ghost oln = ln as int;
        let ghost oout = out@;
        let c = text[idx];
        idx = idx + 1;
        current.push(c);
        let ghost se = (match first_sep(options.seps(), c) {
            Some(sep) => sep_flush(obuf.push(c), c, sep, opos, oln),
            None => (Seq::<SplitItemV>::empty(), obuf.push(c)),
        });
        let sepr = find_separator(&options.separators, c);
        if let Some(sep) = sepr {
            match sep.mode {
                IncludeMode::Aggregate => {
                    let item = SplitItem::new_pl(chars_to_string(&current), pos, ln);
                    proof {
                        lemma_item_views_push(out@, item);
                    }
                    out.push(item);
                },
                IncludeMode::Separate => {
                    proof {
                        assert(current@.subrange(0, current@.len() - 1) =~= obuf);
                    }
                    let head = subvec(&current, 0, current.len() - 1);
                    let item = SplitItem::new_pl(chars_to_string(&head), pos, ln);
                    proof {
                        lemma_item_views_push(out@, item);
                    }
                    out.push(item);
                    let sep_item = SplitItem::new_pl(char_string(c), pos, ln);
                    proof {
                        lemma_item_views_push(out@, sep_item);
                    }
                    out.push(sep_item);
                },
                IncludeMode::Discard => {
                    proof {
                        assert(current@.subrange(0, current@.len() - 1) =~= obuf);
                    }
                    let head = subvec(&current, 0, current.len() - 1);
                    let item = SplitItem::new_pl(chars_to_string(&head), pos, ln);
                    proof {
                        lemma_item_views_push(out@, item);
                    }
                    out.push(item);
                },
            }
            current.clear();
        }
        proof {
            assert(item_views(out@) =~= item_views(oout) + se.0);
            assert(current@ =~= se.1);
        }
        let scr = find_scope(&options.scopes, c);
        if let Some(sc) = scr {
            proof {
                if current@.len() > 0 {
                    assert(current@.subrange(0, current@.len() - 1) =~= pop_last(se.1));
                }
                lemma_scoped_advances(
                    text@,
                    oidx + 1,
                    seq![sc.begin],
                    opos,
                    oln,
                    sc.end,
                    options.eols(),
                );
            }
            current.pop();
            split_string_scoped_mode(text, &mut idx, &mut pos, &mut ln, options, &mut out, &sc);
        }
        if c == '\\' {
            proof {
                if current@.len() > 0 {
                    assert(current@.subrange(0, current@.len() - 1) =~= pop_last(current@));
                }
            }
            current.pop();
            split_string_escaped_mode(text, &mut idx, &mut pos, &mut ln, options, &mut current);
        }
        process_position_and_eof(c, &mut pos, &mut ln, &options.end_of_lines);
        proof {
            let eolsv = options.eols();
            match first_scope(options.scopes@, c) {
                Some(sc) => {
                    let sr2 = spec_scoped(text@, oidx + 1, seq![sc.begin], opos, oln, sc.end, eolsv);
                    if c == '\\' {
                        let e = spec_escaped(text@, sr2.1, pop_last(pop_last(se.1)), sr2.2, sr2.3, eolsv);
                        let pl = advance_pos(e.2, e.3, c, eolsv);
                        let rest = spec_normal(
                            text@,
                            e.1,
                            e.0,
                            pl.0,
                            pl.1,
                            options.seps(),
                            options.scopes@,
                            options.eols(),
                        );
                        assert(cur.0 == se.0 + sr2.0 + rest.0 && cur.1 == rest.1 && cur.2 == rest.2);
                        assert(idx as int == e.1 && current@ == e.0 && pos as int == pl.0 && ln as int == pl.1);
                        assert(item_views(out@) =~= item_views(oout) + se.0 + sr2.0);
                        assert(nr.0 =~= item_views(out@) + rest.0);
                    } else {
                        let pl = advance_pos(sr2.2, sr2.3, c, eolsv);
                        let rest = spec_normal(
                            text@,
                            sr2.1,
                            pop_last(se.1),
                            pl.0,
                            pl.1,
                            options.seps(),
                            options.scopes@,
                            options.eols(),
                        );
                        assert(cur.0 == se.0 + sr2.0 + rest.0 && cur.1 == rest.1 && cur.2 == rest.2);
                        assert(idx as int == sr2.1 && current@ == pop_last(se.1) && pos as int == pl.0
                            && ln as int == pl.1);
                        assert(item_views(out@) =~= item_views(oout) + se.0 + sr2.0);
                        assert(nr.0 =~= item_views(out@) + rest.0);
                    }
                },
                None => {
                    if c == '\\' {
                        let e = spec_escaped(text@, oidx + 1, pop_last(se.1), opos, oln, eolsv);
                        let pl = advance_pos(e.2, e.3, c, eolsv);
                        let rest = spec_normal(
                            text@,
                            e.1,
                            e.0,
                            pl.0,
                            pl.1,
                            options.seps(),
                            options.scopes@,
                            options.eols(),
                        );
                        assert(cur.0 == se.0 + rest.0 && cur.1 == rest.1 && cur.2 == rest.2);
                        assert(idx as int == e.1 && current@ == e.0 && pos as int == pl.0 && ln as int == pl.1);
                        assert(nr.0 =~= item_views(out@) + rest.0);
                    } else {
                        let pl = advance_pos(opos, oln, c, eolsv);
                        let rest = spec_normal(
                            text@,
                            oidx + 1,
                            se.1,
                            pl.0,
                            pl.1,
                            options.seps(),
                            options.scopes@,
                            options.eols(),
                        );
                        assert(cur.0 == se.0 + rest.0 && cur.1 == rest.1 && cur.2 == rest.2);
                        assert(idx as int == oidx + 1 && current@ == se.1 && pos as int == pl.0
                            && ln as int == pl.1);
                        assert(nr.0 =~= item_views(out@) + rest.0);
                    }
                },
            }
        }
    }
    proof {
        assert(spec_normal(
            text@,
            idx as int,
            current@,
            pos as int,
            ln as int,
            options.seps(),
            options.scopes@,
            options.eols(),
        ) == (
            if current@.len() > 0 {
                seq![item_of(current@, pos as int, ln as int)]
            } else {
                Seq::<SplitItemV>::empty()
            },
            pos as int,
            ln as int,
        ));
    }
    if current.len() > 0 {
        let item = SplitItem::new_pl(chars_to_string(&current), pos, ln);
        proof {
            lemma_item_views_push(out@, item);
        }
        out.push(item);
    }
    *position = pos;
    *line = ln;
    proof {
        lemma_item_views_concat(list@, out@);
        assert(nr.0 =~= item_views(out@));
    }
    list.append(&mut out);
}

// ------------------------------------------------------------------
// The aggregator, in mathematics: a single pass scans the fragment
// sequence with a cursor; at each position the first rule whose
// predicates match the next fragments fuses them into one, and
// otherwise the fragment is copied. Passes repeat until one changes
// nothing.
// ------------------------------------------------------------------

/// Spec: rule `dets` can fuse the fragments starting at `i`: it has
/// at least two steps, they all fit, and each fragment satisfies its
/// predicate.
pub open spec fn rule_matches_at(items: Seq<SplitItemV>, i: int, dets: Seq<MatcherV>) -> bool {
    &&& dets.len() >= 2
    &&& 0 <= i
    &&& i + dets.len() <= items.len()
    &&& forall|k: int|
        0 <= k < dets.len() ==> #[trigger] matcher_matches(dets[k], items[i + k].text)
}

/// Spec: the first rule at or after index `k` that can fuse at `i`.
pub open spec fn first_rule_from(
    items: Seq<SplitItemV>,
    aggs: Seq<Seq<MatcherV>>,
    i: int,
    k: int,
) -> Option<int>
    decreases aggs.len() - k,
{
    if k < 0 || k >= aggs.len() {
        None
    } else if rule_matches_at(items, i, aggs[k]) {
        Some(k)
    } else {
        first_rule_from(items, aggs, i, k + 1)
    }
}

proof fn lemma_first_rule_from(items: Seq<SplitItemV>, aggs: Seq<Seq<MatcherV>>, i: int, k: int)
    requires
        0 <= k,
    ensures
        match first_rule_from(items, aggs, i, k) {
            Some(j) => k <= j < aggs.len() && rule_matches_at(items, i, aggs[j]),
            None => true,
        },
    decreases aggs.len() - k,
{
    if k < aggs.len() && !rule_matches_at(items, i, aggs[k]) {
        lemma_first_rule_from(items, aggs, i, k + 1);
    }
}

/// Spec: the concatenated text of `n` fragments starting at `i`.
pub open spec fn run_text(items: Seq<SplitItemV>, i: int, n: int) -> Seq<char>
    decreases n,
{
    if n <= 0 {
        Seq::empty()
    } else {
        run_text(items, i, n - 1) + items[i + n - 1].text
    }
}

/// Spec: the component-wise maximum of the positions of `n` fragments
/// starting at `i`: the latest observed column and line.
pub open spec fn run_pos(items: Seq<SplitItemV>, i: int, n: int) -> (int, int)
    decreases n,
{
    if n <= 1 {
        (items[i].pos, items[i].line)
    } else {
        let p = run_pos(items, i, n - 1);
        (
            if p.0 > items[i + n - 1].pos {
                p.0
            } else {
                items[i + n - 1].pos
            },
            if p.1 > items[i + n - 1].line {
                p.1
            } else {
                items[i + n - 1].line
            },
        )
    }
}

/// Spec: the fragment that fusing `n` fragments at `i` produces.
pub open spec fn merged_item(items: Seq<SplitItemV>, i: int, n: int) -> SplitItemV {
    SplitItemV { text: run_text(items, i, n), pos: run_pos(items, i, n).0, line: run_pos(items, i, n).1 }
}

/// Spec: one aggregation pass from cursor `i`: the rewritten sequence
/// and whether anything was fused.
pub open spec fn spec_pass(items: Seq<SplitItemV>, aggs: Seq<Seq<MatcherV>>, i: int) -> (
    Seq<SplitItemV>,
    bool,
)
    decreases items.len() - i,
        via spec_pass_decreases
{
    if i < 0 || i >= items.len() {
        (Seq::<SplitItemV>::empty(), false)
    } else {
        match first_rule_from(items, aggs, i, 0) {
            Some(k) => {
                let n = aggs[k].len() as int;
                let rest = spec_pass(items, aggs, i + n);
                (seq![merged_item(items, i, n)] + rest.0, true)
            },
            None => {
                let rest = spec_pass(items, aggs, i + 1);
                (seq![items[i]] + rest.0, rest.1)
            },
        }
    }
}

#[via_fn]
proof fn spec_pass_decreases(items: Seq<SplitItemV>, aggs: Seq<Seq<MatcherV>>, i: int) {
    if 0 <= i < items.len() {
        lemma_first_rule_from(items, aggs, i, 0);
    }
}

/// A pass never lengthens the sequence, and a pass that fused
/// something strictly shortens it.
pub proof fn lemma_pass_shrinks(items: Seq<SplitItemV>, aggs: Seq<Seq<MatcherV>>, i: int)
    requires
        0 <= i <= items.len(),
    ensures
        spec_pass(items, aggs, i).0.len() <= items.len() - i,
        spec_pass(items, aggs, i).1 ==> spec_pass(items, aggs, i).0.len() < items.len() - i,
    decreases items.len() - i,
{
    if i < items.len() {
        lemma_first_rule_from(items, aggs, i, 0);
        match first_rule_from(items, aggs, i, 0) {
            Some(k) => {
                lemma_pass_shrinks(items, aggs, i + aggs[k].len() as int);
            },
            None => {
                lemma_pass_shrinks(items, aggs, i + 1);
            },
        }
    }
}

/// A pass that fused nothing copied every fragment unchanged.
pub proof fn lemma_pass_copies(items: Seq<SplitItemV>, aggs: Seq<Seq<MatcherV>>, i: int)
    requires
        0 <= i <= items.len(),
        !spec_pass(items, aggs, i).1,
    ensures
        spec_pass(items, aggs, i).0 == items.skip(i),
    decreases items.len() - i,
{
    if i < items.len() {
        match first_rule_from(items, aggs, i, 0) {
            Some(k) => {},
            None => {
                lemma_pass_copies(items, aggs, i + 1);
                assert(items.skip(i) =~= seq![items[i]] + items.skip(i + 1));
            },
        }
    } else {
        assert(items.skip(i) =~= Seq::<SplitItemV>::empty());
    }
}

/// Spec: passes repeated to the fixed point: the sequence on which a
/// pass first reports no change.
pub open spec fn spec_aggregate(items: Seq<SplitItemV>, aggs: Seq<Seq<MatcherV>>) -> Seq<
    SplitItemV,
>
    decreases items.len(),
        via spec_aggregate_decreases
{
    let pr = spec_pass(items, aggs, 0);
    if pr.1 {
        spec_aggregate(pr.0, aggs)
    } else {
        items
    }
}

#[via_fn]
proof fn spec_aggregate_decreases(items: Seq<SplitItemV>, aggs: Seq<Seq<MatcherV>>) {
    lemma_pass_shrinks(items, aggs, 0);
}

// ------------------------------------------------------------------
// Exec aggregator
// ------------------------------------------------------------------

/// The views of the aggregation rules.
pub open spec fn agg_views(aggregators: Seq<SplitAggregator>) -> Seq<Seq<MatcherV>> {
    aggregators.map_values(|a: SplitAggregator| a@)
}

/// Do the detectors of one rule match the fragments starting at
/// `start`?
fn rule_matches(inputs: &Vec<SplitItem>, start: usize, detectors: &Vec<Matcher>) -> (r: bool)
    requires
        start <= inputs@.len(),
    ensures
        r == rule_matches_at(
            item_views(inputs@),
            start as int,
            detectors@.map_values(|m: Matcher| m@),
        ),
{
    let ghost dets = detectors@.map_values(|m: Matcher| m@);
    let ghost views = item_views(inputs@);
    let ilen = inputs.len();
    if detectors.len() < 2 {
        return false;
    }
    if detectors.len() > ilen - start {
        return false;
    }
    let mut k: usize = 0;
    while k < detectors.len()
        invariant
            k <= detectors@.len(),
            ilen == inputs@.len(),
            start + detectors@.len() <= inputs@.len(),
            dets == detectors@.map_values(|m: Matcher| m@),
            views == item_views(inputs@),
            forall|m: int| 0 <= m < k ==> #[trigger] matcher_matches(dets[m], views[start + m].text),
        decreases detectors@.len() - k,
    {
        if !detectors[k].matches(&inputs[start + k].text) {
            proof {
                assert(!matcher_matches(dets[k as int], views[start + k].text));
            }
            return false;
        }
        k = k + 1;
    }
    true
}

/// Tries one aggregation rule at `start`: on a match, fuses the
/// matched fragments — their texts concatenated, their positions
/// combined component-wise — and pushes the fused fragment onto
/// `outputs`.
pub fn apply_aggregator(
    inputs: &Vec<SplitItem>,
    start: usize,
    detectors: &Vec<Matcher>,
    outputs: &mut Vec<SplitItem>,
) -> (matched: bool)
    requires
        start <= inputs@.len(),
    ensures
        matched == rule_matches_at(
            item_views(inputs@),
            start as int,
            detectors@.map_values(|m: Matcher| m@),
        ),
        matched ==> item_views(final(outputs)@) == item_views(old(outputs)@).push(
            merged_item(item_views(inputs@), start as int, detectors@.len() as int),
        ),
        !matched ==> final(outputs)@ == old(outputs)@,
{
    let ghost views = item_views(inputs@);
    if !rule_matches(inputs, start, detectors) {
        return false;
    }
    let n = detectors.len();
    let ilen = inputs.len();
    let mut text = String::new();
    let mut k: usize = 0;
    while k < n
        invariant
            k <= n,
            n == detectors@.len(),
            n >= 2,
            ilen == inputs@.len(),
            start + n <= inputs@.len(),
            views == item_views(inputs@),
            text@ == run_text(views, start as int, k as int),
        decreases n - k,
    {
        text.append(inputs[start + k].text.as_str());
        k = k + 1;
    }
    let mut combined = inputs[start].position;
    let mut m: usize = 1;
    while m < n
        invariant
            1 <= m <= n,
            n == detectors@.len(),
            ilen == inputs@.len(),
            start + n <= inputs@.len(),
            views == item_views(inputs@),
            (combined.position as int, combined.line as int) == run_pos(
                views,
                start as int,
                m as int,
            ),
        decreases n - m,
    {
        combined = combined.add(inputs[start + m].position);
        m = m + 1;
    }
    let item = SplitItem::new(text, combined);
    proof {
        lemma_item_views_push(outputs@, item);
        assert(item@ =~= merged_item(views, start as int, n as int));
    }
    outputs.push(item);
    true
}

/// The first rule of the table that can fuse at `start`, if any.
fn find_rule(inputs: &Vec<SplitItem>, start: usize, aggregators: &Vec<SplitAggregator>) -> (r:
    Option<usize>)
    requires
        start <= inputs@.len(),
    ensures
        match r {
            Some(j) => first_rule_from(item_views(inputs@), agg_views(aggregators@), start as int, 0)
                == Some(j as int) && j < aggregators@.len(),
            None => first_rule_from(item_views(inputs@), agg_views(aggregators@), start as int, 0)
                is None,
        },
{
    let ghost aggs = agg_views(aggregators@);
    let ghost views = item_views(inputs@);
    let mut j: usize = 0;
    while j < aggregators.len()
        invariant
            j <= aggregators@.len(),
            start <= inputs@.len(),
            aggs == agg_views(aggregators@),
            views == item_views(inputs@),
            first_rule_from(views, aggs, start as int, 0) == first_rule_from(
                views,
                aggs,
                start as int,
                j as int,
            ),
        decreases aggregators@.len() - j,
    {
        if rule_matches(inputs, start, &aggregators[j].detectors) {
            proof {
                assert(aggs[j as int] == aggregators@[j as int]@);
            }
            return Some(j);
        }
        j = j + 1;
    }
    None
}

/// One aggregation pass over the whole fragment sequence: at each
/// cursor position the first matching rule fuses, otherwise the
/// fragment is copied. Returns the new sequence and whether anything
/// was fused.
pub fn apply_aggregators(inputs: &Vec<SplitItem>, aggregators: &Vec<SplitAggregator>) -> (r: (
    Vec<SplitItem>,
    bool,
))
    ensures
        (item_views(r.0@), r.1) == spec_pass(item_views(inputs@), agg_views(aggregators@), 0),
{
    let ghost aggs = agg_views(aggregators@);
    let ghost views = item_views(inputs@);
    let ghost goal = spec_pass(views, aggs, 0);
    let mut outputs: Vec<SplitItem> = Vec::new();
    let mut changed_any = false;
    let mut i: usize = 0;
    while i < inputs.len()
        invariant
            i <= inputs@.len(),
            aggs == agg_views(aggregators@),
            views == item_views(inputs@),
            goal == spec_pass(views, aggs, 0),
            goal.0 == item_views(outputs@) + spec_pass(views, aggs, i as int).0,
            goal.1 == (changed_any || spec_pass(views, aggs, i as int).1),
        decreases inputs@.len() - i,
    {
        let ghost cur = spec_pass(views, aggs, i as int);
        match find_rule(inputs, i, aggregators) {
            Some(j) => {
                let matched = apply_aggregator(inputs, i, &aggregators[j].detectors, &mut outputs);
                proof {
                    lemma_first_rule_from(views, aggs, i as int, 0);
                    assert(aggs[j as int] == aggregators@[j as int]@);
                    assert(matched);
                }
                i = i + aggregators[j].detectors.len();
                changed_any = true;
                proof {
                    assert(goal.0 =~= item_views(outputs@) + spec_pass(views, aggs, i as int).0);
                }
            },
            None => {
                let item = SplitItem::new(inputs[i].text.clone(), inputs[i].position);
                proof {
                    lemma_item_views_push(outputs@, item);
                    assert(item@ == views[i as int]);
                }
                outputs.push(item);
                i = i + 1;
                proof {
                    assert(goal.0 =~= item_views(outputs@) + spec_pass(views, aggs, i as int).0);
                }
            },
        }
    }
    proof {
        assert(goal.0 =~= item_views(outputs@));
    }
    (outputs, changed_any)
}

// ------------------------------------------------------------------
// The pipeline
// ------------------------------------------------------------------

/// Spec: the fragments with empty texts removed.
pub open spec fn nonempty_filter(items: Seq<SplitItemV>) -> Seq<SplitItemV>
    decreases items.len(),
{
    if items.len() == 0 {
        Seq::<SplitItemV>::empty()
    } else {
        let rest = nonempty_filter(items.drop_last());
        if items.last().text.len() > 0 {
            rest.push(items.last())
        } else {
            rest
        }
    }
}

/// Drops the fragments whose text is empty.
fn filter_non_empty(items: Vec<SplitItem>) -> (r: Vec<SplitItem>)
    ensures
        item_views(r@) == nonempty_filter(item_views(items@)),
{
    let ghost views = item_views(items@);
    let mut r: Vec<SplitItem> = Vec::new();
    let mut i: usize = 0;
    while i < items.len()
        invariant
            i <= items@.len(),
            views == item_views(items@),
            item_views(r@) == nonempty_filter(views.take(i as int)),
        decreases items@.len() - i,
    {
        proof {
            assert(views.take(i + 1).drop_last() =~= views.take(i as int));
            assert(views.take(i + 1).last() == views[i as int]);
        }
        if !items[i].text.as_str().is_empty() {
            let item = SplitItem::new(items[i].text.clone(), items[i].position);
            proof {
                lemma_item_views_push(r@, item);
                assert(item@ == views[i as int]);
            }
            r.push(item);
        }
        i = i + 1;
    }
    proof {
        assert(views.take(items@.len() as int) =~= views);
    }
    r
}

/// Spec: the full splitting stage: the normal-mode scan from position
/// zero, the removal of empty fragments, and aggregation to the fixed
/// point.
pub open spec fn spec_split_string(
    cs: Seq<char>,
    seps: Seq<Separator>,
    scopes: Seq<Scope>,
    eols: Seq<char>,
    aggs: Seq<Seq<MatcherV>>,
) -> Seq<SplitItemV> {
    spec_aggregate(
        nonempty_filter(spec_normal(cs, 0, Seq::<char>::empty(), 0, 0, seps, scopes, eols).0),
        aggs,
    )
}

/// Splits the text into fragments: the character-level scan, the
/// empty-fragment filter, and repeated aggregation passes until one
/// changes nothing. The result is stable: one more pass would return
/// it unchanged and report no change.
pub fn split_string(text: String, options: &TokenizerOptions) -> (r: Vec<SplitItem>)
    requires
        text@.len() < 0x7fff_ffff,
    ensures
        item_views(r@) == spec_split_string(
            text@,
            options.seps(),
            options.scopes@,
            options.eols(),
            options.aggs(),
        ),
        spec_pass(item_views(r@), options.aggs(), 0) == (item_views(r@), false),
{
    let chars = to_char_vec(text.as_str());
    let mut list: Vec<SplitItem> = Vec::new();
    let mut position: i32 = 0;
    let mut line: i32 = 0;
    split_string_normal_mode(&chars, &mut position, &mut line, options, &mut list);
    proof {
        assert(item_views(list@) =~= spec_normal(
            text@,
            0,
            Seq::<char>::empty(),
            0,
            0,
            options.seps(),
            options.scopes@,
            options.eols(),
        ).0);
    }
    let mut list = filter_non_empty(list);
    let ghost aggs = options.aggs();
    let ghost start_views = item_views(list@);
    loop
        invariant
            aggs == options.aggs(),
            spec_aggregate(item_views(list@), aggs) == spec_aggregate(start_views, aggs),
        ensures
            item_views(list@) == spec_aggregate(start_views, aggs),
            spec_pass(item_views(list@), aggs, 0) == (item_views(list@), false),
        decreases item_views(list@).len(),
    {
        let ghost before = item_views(list@);
        let pr = apply_aggregators(&list, &options.split_aggregators);
        let any_changed = pr.1;
        list = pr.0;
        proof {
            lemma_pass_shrinks(before, aggs, 0);
        }
        if !any_changed {
            proof {
                lemma_pass_copies(before, aggs, 0);
                assert(before.skip(0) =~= before);
                assert(item_views(list@) == before);
                assert(spec_aggregate(before, aggs) == before);
            }
            break ;
        }
    }
    list
}

/// The views of a sequence of tokens.
pub open spec fn token_views(s: Seq<Token>) -> Seq<TokenV> {
    s.map_values(|t: Token| t@)
}

/// Spec: the whole pipeline: split, then classify each fragment.
pub open spec fn spec_tokenize(
    cs: Seq<char>,
    seps: Seq<Separator>,
    scopes: Seq<Scope>,
    eols: Seq<char>,
    aggs: Seq<Seq<MatcherV>>,
    tid: MatcherV,
) -> Seq<TokenV> {
    spec_split_string(cs, seps, scopes, eols, aggs).map_values(
        |it: SplitItemV| spec_build(it, tid),
    )
}

/// Converts the text into its ordered sequence of classified tokens:
/// each fragment of [`split_string`]'s output becomes one token, in
/// order, carrying its text and position.
pub fn tokenize(entry: String, options: &TokenizerOptions) -> (r: Vec<Token>)
    requires
        entry@.len() < 0x7fff_ffff,
    ensures
        token_views(r@) == spec_tokenize(
            entry@,
            options.seps(),
            options.scopes@,
            options.eols(),
            options.aggs(),
            options.try_id@,
        ),
{
    let ghost goal = spec_tokenize(
        entry@,
        options.seps(),
        options.scopes@,
        options.eols(),
        options.aggs(),
        options.try_id@,
    );
    let pieces = split_string(entry, options);
    let ghost pviews = item_views(pieces@);
    let mut tokens: Vec<Token> = Vec::new();
    let mut i: usize = 0;
    while i < pieces.len()
        invariant
            i <= pieces@.len(),
            pviews == item_views(pieces@),
            goal == pviews.map_values(|it: SplitItemV| spec_build(it, options.try_id@)),
            token_views(tokens@) == goal.take(i as int),
        decreases pieces@.len() - i,
    {
        let piece = SplitItem::new(pieces[i].text.clone(), pieces[i].position);
        proof {
            assert(piece@ == pviews[i as int]);
        }
        let token = Token::build(piece, options);
        proof {
            assert(token_views(tokens@.push(token)) =~= token_views(tokens@).push(token@));
            assert(goal.take(i + 1) =~= goal.take(i as int).push(goal[i as int]));
        }
        tokens.push(token);
        i = i + 1;
    }
    proof {
        assert(goal.take(pieces@.len() as int) =~= goal);
    }
    tokens
}

// ------------------------------------------------------------------
// Laws
// ------------------------------------------------------------------

/// Law: the aggregator's single pass is idempotent on its own stable
/// output. A pass that reports no change returned its input
/// unchanged, so running the pass once more on that output again
/// changes nothing. Together with [`split_string`]'s stability
/// clause, re-running a pass on a split result is a no-op.
pub proof fn lemma_aggregator_pass_idempotent(items: Seq<SplitItemV>, aggs: Seq<Seq<MatcherV>>)
    requires
        !spec_pass(items, aggs, 0).1,
    ensures
        spec_pass(items, aggs, 0).0 == items,
        spec_pass(spec_pass(items, aggs, 0).0, aggs, 0) == spec_pass(items, aggs, 0),
{
    lemma_pass_copies(items, aggs, 0);
    assert(items.skip(0) =~= items);
}

/// Spec: position `(l1, p1)` comes no later than `(l2, p2)`: an
/// earlier line, or the same line and a column no greater.
pub open spec fn lex_le(l1: int, p1: int, l2: int, p2: int) -> bool {
    l1 < l2 || (l1 == l2 && p1 <= p2)
}

/// Spec: the fragments are ordered by position, all lying between the
/// two given scan positions.
pub open spec fn run_ordered(items: Seq<SplitItemV>, pl: int, ll: int, ph: int, lh: int) -> bool {
    &&& forall|a: int, b: int|
        0 <= a <= b < items.len() ==> #[trigger] lex_le(
            items[a].line,
            items[a].pos,
            items[b].line,
            items[b].pos,
        )
    &&& forall|k: int|
        0 <= k < items.len() ==> lex_le(ll, pl, #[trigger] items[k].line, items[k].pos) && lex_le(
            items[k].line,
            items[k].pos,
            lh,
            ph,
        )
}

proof fn lemma_run_ordered_concat(
    x: Seq<SplitItemV>,
    y: Seq<SplitItemV>,
    pl: int,
    ll: int,
    pm: int,
    lm: int,
    ph: int,
    lh: int,
)
    requires
        run_ordered(x, pl, ll, pm, lm),
        run_ordered(y, pm, lm, ph, lh),
        lex_le(ll, pl, lm, pm),
        lex_le(lm, pm, lh, ph),
    ensures
        run_ordered(x + y, pl, ll, ph, lh),
{
    let z = x + y;
    assert forall|k: int| 0 <= k < z.len() implies lex_le(ll, pl, #[trigger] z[k].line, z[k].pos)
        && lex_le(z[k].line, z[k].pos, lh, ph) by {
        if k < x.len() {
            assert(z[k] == x[k]);
        } else {
            assert(z[k] == y[k - x.len()]);
        }
    }
    assert forall|a: int, b: int| 0 <= a <= b < z.len() implies #[trigger] lex_le(
        z[a].line,
        z[a].pos,
        z[b].line,
        z[b].pos,
    ) by {
        if b < x.len() {
            assert(z[a] == x[a] && z[b] == x[b]);
        } else if a >= x.len() {
            assert(z[a] == y[a - x.len()] && z[b] == y[b - x.len()]);
        } else {
            assert(z[a] == x[a] && z[b] == y[b - x.len()]);
        }
    }
}

/// The position advances (in line-then-column order) by each consumed
/// character, and every fragment a scoped-mode scan emits lies
/// between the starting and the final scan position, in order.
proof fn lemma_scoped_monotone(
    cs: Seq<char>,
    j: int,
    buf: Seq<char>,
    pos: int,
    line: int,
    endc: char,
    eols: Seq<char>,
)
    ensures
        ({
            let sr = spec_scoped(cs, j, buf, pos, line, endc, eols);
            &&& run_ordered(sr.0, pos, line, sr.2, sr.3)
            &&& lex_le(line, pos, sr.3, sr.2)
        }),
    decreases cs.len() - j,
{
    if !(j < 0 || j >= cs.len()) {
        let c = cs[j];
        if c == endc {
        } else if c == '\\' {
            let e = spec_escaped(cs, j + 1, buf, pos, line, eols);
            let pl = advance_pos(e.2, e.3, c, eols);
            lemma_scoped_monotone(cs, e.1, e.0, pl.0, pl.1, endc, eols);
        } else {
            let pl = advance_pos(pos, line, c, eols);
            lemma_scoped_monotone(cs, j + 1, buf.push(c), pl.0, pl.1, endc, eols);
        }
    }
}

/// Every fragment the normal-mode scan emits lies between the
/// starting and the final scan position, and the fragments appear in
/// position order.
pub proof fn lemma_normal_monotone(
    cs: Seq<char>,
    j: int,
    buf: Seq<char>,
    pos: int,
    line: int,
    seps: Seq<Separator>,
    scopes: Seq<Scope>,
    eols: Seq<char>,
)
    ensures
        ({
            let nr = spec_normal(cs, j, buf, pos, line, seps, scopes, eols);
            &&& run_ordered(nr.0, pos, line, nr.1, nr.2)
            &&& lex_le(line, pos, nr.2, nr.1)
        }),
    decreases cs.len() - j,
{
    if !(j < 0 || j >= cs.len()) {
        let c = cs[j];
        let buf1 = buf.push(c);
        let se = (match first_sep(seps, c) {
            Some(sep) => sep_flush(buf1, c, sep, pos, line),
            None => (Seq::<SplitItemV>::empty(), buf1),
        });
        assert(run_ordered(se.0, pos, line, pos, line));
        match first_scope(scopes, c) {
            Some(sc) => {
                let sr = spec_scoped(cs, j + 1, seq![sc.begin], pos, line, sc.end, eols);
                lemma_scoped_monotone(cs, j + 1, seq![sc.begin], pos, line, sc.end, eols);
                lemma_scoped_loose_advances(cs, j + 1, seq![sc.begin], pos, line, sc.end, eols);
                if c == '\\' {
                    let e = spec_escaped(cs, sr.1, pop_last(pop_last(se.1)), sr.2, sr.3, eols);
                    let pl = advance_pos(e.2, e.3, c, eols);
                    let rest = spec_normal(cs, e.1, e.0, pl.0, pl.1, seps, scopes, eols);
                    lemma_normal_monotone(cs, e.1, e.0, pl.0, pl.1, seps, scopes, eols);
                    lemma_run_ordered_concat(
                        sr.0,
                        rest.0,
                        pos,
                        line,
                        pl.0,
                        pl.1,
                        rest.1,
                        rest.2,
                    );
                    lemma_run_ordered_concat(
                        se.0,
                        sr.0 + rest.0,
                        pos,
                        line,
                        pos,
                        line,
                        rest.1,
                        rest.2,
                    );
                    assert(se.0 + sr.0 + rest.0 =~= se.0 + (sr.0 + rest.0));
                } else {
                    let pl = advance_pos(sr.2, sr.3, c, eols);
                    let rest = spec_normal(cs, sr.1, pop_last(se.1), pl.0, pl.1, seps, scopes, eols);
                    lemma_normal_monotone(cs, sr.1, pop_last(se.1), pl.0, pl.1, seps, scopes, eols);
                    lemma_run_ordered_concat(
                        sr.0,
                        rest.0,
                        pos,
                        line,
                        pl.0,
                        pl.1,
                        rest.1,
                        rest.2,
                    );
                    lemma_run_ordered_concat(
                        se.0,
                        sr.0 + rest.0,
                        pos,
                        line,
                        pos,
                        line,
                        rest.1,
                        rest.2,
                    );
                    assert(se.0 + sr.0 + rest.0 =~= se.0 + (sr.0 + rest.0));
                }
            },
            None => {
                if c == '\\' {
                    let e = spec_escaped(cs, j + 1, pop_last(se.1), pos, line, eols);
                    let pl = advance_pos(e.2, e.3, c, eols);
                    let rest = spec_normal(cs, e.1, e.0, pl.0, pl.1, seps, scopes, eols);
                    lemma_normal_monotone(cs, e.1, e.0, pl.0, pl.1, seps, scopes, eols);
                    lemma_run_ordered_concat(se.0, rest.0, pos, line, pos, line, rest.1, rest.2);
                } else {
                    let pl = advance_pos(pos, line, c, eols);
                    let rest = spec_normal(cs, j + 1, se.1, pl.0, pl.1, seps, scopes, eols);
                    lemma_normal_monotone(cs, j + 1, se.1, pl.0, pl.1, seps, scopes, eols);
                    lemma_run_ordered_concat(se.0, rest.0, pos, line, pos, line, rest.1, rest.2);
                }
            },
        }
    }
}

/// Spec: the fragments appear in position order: line then column.
pub open spec fn fragments_ordered(items: Seq<SplitItemV>) -> bool {
    forall|a: int, b: int|
        0 <= a <= b < items.len() ==> #[trigger] lex_le(
            items[a].line,
            items[a].pos,
            items[b].line,
            items[b].pos,
        )
}

/// Dropping empty fragments keeps the position order, and keeps every
/// fragment no later than the last one.
proof fn lemma_filter_ordered(items: Seq<SplitItemV>)
    requires
        fragments_ordered(items),
    ensures
        fragments_ordered(nonempty_filter(items)),
        items.len() > 0 ==> forall|k: int|
            0 <= k < nonempty_filter(items).len() ==> #[trigger] lex_le(
                nonempty_filter(items)[k].line,
                nonempty_filter(items)[k].pos,
                items.last().line,
                items.last().pos,
            ),
    decreases items.len(),
{
    if items.len() > 0 {
        let d = items.drop_last();
        let x = items.last();
        assert(fragments_ordered(d)) by {
            assert forall|a: int, b: int| 0 <= a <= b < d.len() implies #[trigger] lex_le(
                d[a].line,
                d[a].pos,
                d[b].line,
                d[b].pos,
            ) by {
                assert(d[a] == items[a] && d[b] == items[b]);
                assert(lex_le(items[a].line, items[a].pos, items[b].line, items[b].pos));
            }
        }
        lemma_filter_ordered(d);
        let f = nonempty_filter(items);
        assert forall|k: int| 0 <= k < f.len() implies #[trigger] lex_le(
            f[k].line,
            f[k].pos,
            x.line,
            x.pos,
        ) by {
            if d.len() > 0 {
                assert(lex_le(d.last().line, d.last().pos, x.line, x.pos)) by {
                    assert(d.last() == items[items.len() - 2] && x == items[items.len() - 1]);
                    assert(lex_le(
                        items[items.len() - 2].line,
                        items[items.len() - 2].pos,
                        items[items.len() - 1].line,
                        items[items.len() - 1].pos,
                    ));
                }
            }
            if x.text.len() > 0 && k == f.len() - 1 {
                assert(f[k] == x);
            } else {
                assert(f[k] == nonempty_filter(d)[k]);
                assert(lex_le(
                    nonempty_filter(d)[k].line,
                    nonempty_filter(d)[k].pos,
                    d.last().line,
                    d.last().pos,
                ));
            }
        }
        assert forall|a: int, b: int| 0 <= a <= b < f.len() implies #[trigger] lex_le(
            f[a].line,
            f[a].pos,
            f[b].line,
            f[b].pos,
        ) by {
            if x.text.len() > 0 && b == f.len() - 1 {
                assert(f[b] == x);
            } else {
                assert(f[a] == nonempty_filter(d)[a] && f[b] == nonempty_filter(d)[b]);
            }
        }
    }
}

/// Law: position monotonicity of the splitter. In the scan's output,
/// and still after the empty fragments are dropped, line numbers
/// never decrease from one fragment to the next, and within a single
/// line successive fragments' columns are non-decreasing.
pub proof fn lemma_split_positions_monotone(
    cs: Seq<char>,
    seps: Seq<Separator>,
    scopes: Seq<Scope>,
    eols: Seq<char>,
)
    ensures
        ({
            let items = spec_normal(cs, 0, Seq::<char>::empty(), 0, 0, seps, scopes, eols).0;
            forall|a: int, b: int|
                0 <= a <= b < items.len() ==> #[trigger] items[a].line <= #[trigger] items[b].line
                    && (items[a].line == items[b].line ==> items[a].pos <= items[b].pos)
        }),
        ({
            let kept = nonempty_filter(
                spec_normal(cs, 0, Seq::<char>::empty(), 0, 0, seps, scopes, eols).0,
            );
            forall|a: int, b: int|
                0 <= a <= b < kept.len() ==> #[trigger] kept[a].line <= #[trigger] kept[b].line && (
                kept[a].line == kept[b].line ==> kept[a].pos <= kept[b].pos)
        }),
{
    lemma_normal_monotone(cs, 0, Seq::<char>::empty(), 0, 0, seps, scopes, eols);
    let items = spec_normal(cs, 0, Seq::<char>::empty(), 0, 0, seps, scopes, eols).0;
    assert(fragments_ordered(items));
    lemma_filter_ordered(items);
    let kept = nonempty_filter(items);
    assert forall|a: int, b: int| 0 <= a <= b < items.len() implies #[trigger] items[a].line
        <= #[trigger] items[b].line && (items[a].line == items[b].line ==> items[a].pos
        <= items[b].pos) by {
        assert(lex_le(items[a].line, items[a].pos, items[b].line, items[b].pos));
    }
    assert forall|a: int, b: int| 0 <= a <= b < kept.len() implies #[trigger] kept[a].line
        <= #[trigger] kept[b].line && (kept[a].line == kept[b].line ==> kept[a].pos
        <= kept[b].pos) by {
        assert(lex_le(kept[a].line, kept[a].pos, kept[b].line, kept[b].pos));
    }
}

/// Spec: the fragments all lie on line `l`, with non-decreasing
/// columns.
pub open spec fn single_line_monotone(items: Seq<SplitItemV>, l: int) -> bool {
    &&& forall|k: int| 0 <= k < items.len() ==> #[trigger] items[k].line == l
    &&& forall|a: int, b: int| 0 <= a <= b < items.len() ==> #[trigger] items[a].pos <= #[trigger] items[b].pos
}

/// Fusing a run of same-line fragments with non-decreasing columns
/// yields the last fragment's position.
proof fn lemma_run_pos_single_line(items: Seq<SplitItemV>, l: int, i: int, n: int)
    requires
        single_line_monotone(items, l),
        0 <= i,
        1 <= n,
        i + n <= items.len(),
    ensures
        run_pos(items, i, n) == (items[i + n - 1].pos, l),
    decreases n,
{
    if n > 1 {
        lemma_run_pos_single_line(items, l, i, n - 1);
    }
}

/// One aggregation pass keeps same-line fragments on their line, in
/// column order, and no earlier than the cursor's fragment.
proof fn lemma_pass_single_line(items: Seq<SplitItemV>, aggs: Seq<Seq<MatcherV>>, l: int, i: int)
    requires
        single_line_monotone(items, l),
        0 <= i <= items.len(),
    ensures
        single_line_monotone(spec_pass(items, aggs, i).0, l),
        i < items.len() ==> forall|k: int|
            0 <= k < spec_pass(items, aggs, i).0.len() ==> items[i].pos <= #[trigger] spec_pass(
                items,
                aggs,
                i,
            ).0[k].pos,
    decreases items.len() - i,
{
    if i < items.len() {
        lemma_first_rule_from(items, aggs, i, 0);
        let out = spec_pass(items, aggs, i).0;
        match first_rule_from(items, aggs, i, 0) {
            Some(k) => {
                let n = aggs[k].len() as int;
                let rest = spec_pass(items, aggs, i + n).0;
                lemma_pass_single_line(items, aggs, l, i + n);
                lemma_run_pos_single_line(items, l, i, n);
                assert(out == seq![merged_item(items, i, n)] + rest);
                assert(merged_item(items, i, n).pos == items[i + n - 1].pos);
                assert forall|a: int, b: int| 0 <= a <= b < out.len() implies #[trigger] out[a].pos
                    <= #[trigger] out[b].pos by {
                    if a > 0 {
                        assert(out[a] == rest[a - 1] && out[b] == rest[b - 1]);
                    } else if b > 0 {
                        assert(out[b] == rest[b - 1]);
                        if i + n < items.len() {
                            assert(items[i + n].pos <= rest[b - 1].pos);
                            assert(items[i + n - 1].pos <= items[i + n].pos);
                        }
                    }
                }
                assert forall|k2: int| 0 <= k2 < out.len() implies #[trigger] out[k2].line
                    == l by {
                    if k2 > 0 {
                        assert(out[k2] == rest[k2 - 1]);
                    }
                }
                assert forall|k2: int| 0 <= k2 < out.len() implies items[i].pos
                    <= #[trigger] out[k2].pos by {
                    if k2 > 0 {
                        assert(out[k2] == rest[k2 - 1]);
                        if i + n < items.len() {
                            assert(items[i + n].pos <= rest[k2 - 1].pos);
                        }
                    }
                }
            },
            None => {
                let rest = spec_pass(items, aggs, i + 1).0;
                lemma_pass_single_line(items, aggs, l, i + 1);
                assert(out == seq![items[i]] + rest);
                assert forall|a: int, b: int| 0 <= a <= b < out.len() implies #[trigger] out[a].pos
                    <= #[trigger] out[b].pos by {
                    if a > 0 {
                        assert(out[a] == rest[a - 1] && out[b] == rest[b - 1]);
                    } else if b > 0 {
                        assert(out[b] == rest[b - 1]);
                        if i + 1 < items.len() {
                            assert(items[i + 1].pos <= rest[b - 1].pos);
                        }
                    }
                }
                assert forall|k2: int| 0 <= k2 < out.len() implies #[trigger] out[k2].line
                    == l by {
                    if k2 > 0 {
                        assert(out[k2] == rest[k2 - 1]);
                    }
                }
                assert forall|k2: int| 0 <= k2 < out.len() implies items[i].pos
                    <= #[trigger] out[k2].pos by {
                    if k2 > 0 {
                        assert(out[k2] == rest[k2 - 1]);
                        if i + 1 < items.len() {
                            assert(items[i + 1].pos <= rest[k2 - 1].pos);
                        }
                    }
                }
            },
        }
    }
}

/// Law: aggregation keeps position monotonicity on a single line.
/// If every fragment lies on one line with non-decreasing columns,
/// the fixed point of the aggregation passes again lies on that line
/// with non-decreasing columns. (Across lines this can fail: the
/// component-wise-maximum merge of a run that spans a line break can
/// put a large column before a smaller one.)
pub proof fn lemma_aggregate_single_line_monotone(
    items: Seq<SplitItemV>,
    aggs: Seq<Seq<MatcherV>>,
    l: int,
)
    requires
        single_line_monotone(items, l),
    ensures
        single_line_monotone(spec_aggregate(items, aggs), l),
    decreases items.len(),
{
    let pr = spec_pass(items, aggs, 0);
    lemma_pass_shrinks(items, aggs, 0);
    lemma_pass_single_line(items, aggs, l, 0);
    if pr.1 {
        lemma_aggregate_single_line_monotone(pr.0, aggs, l);
    }
}

/// Spec: the texts of the fragments from index `i` on, concatenated
/// in order.
pub open spec fn flat_from(items: Seq<SplitItemV>, i: int) -> Seq<char>
    decreases items.len() - i,
{
    if i < 0 || i >= items.len() {
        Seq::<char>::empty()
    } else {
        items[i].text + flat_from(items, i + 1)
    }
}

proof fn lemma_flat_concat_from(a: Seq<SplitItemV>, b: Seq<SplitItemV>, i: int)
    requires
        0 <= i <= a.len() + b.len(),
    ensures
        i <= a.len() ==> flat_from(a + b, i) == flat_from(a, i) + flat_from(b, 0),
        i > a.len() ==> flat_from(a + b, i) == flat_from(b, i - a.len()),
    decreases a.len() + b.len() - i,
{
    if i >= a.len() + b.len() {
        if i <= a.len() {
            assert(flat_from(a, i) + flat_from(b, 0) =~= Seq::<char>::empty());
        }
    } else {
        lemma_flat_concat_from(a, b, i + 1);
        if i < a.len() {
            assert((a + b)[i] == a[i]);
            assert(a[i].text + (flat_from(a, i + 1) + flat_from(b, 0)) =~= (a[i].text + flat_from(
                a,
                i + 1,
            )) + flat_from(b, 0));
        } else {
            assert((a + b)[i] == b[i - a.len()]);
            if i == a.len() {
                assert(flat_from(a, i) + flat_from(b, 0) =~= flat_from(b, 0));
            }
        }
    }
}

proof fn lemma_flat_concat(a: Seq<SplitItemV>, b: Seq<SplitItemV>)
    ensures
        flat_from(a + b, 0) == flat_from(a, 0) + flat_from(b, 0),
{
    lemma_flat_concat_from(a, b, 0);
}

proof fn lemma_flat_from_push(items: Seq<SplitItemV>, x: SplitItemV)
    ensures
        flat_from(items.push(x), 0) == flat_from(items, 0) + x.text,
{
    assert(items.push(x) =~= items + seq![x]);
    lemma_flat_concat(items, seq![x]);
    assert(flat_from(seq![x], 1) =~= Seq::<char>::empty());
    assert(flat_from(seq![x], 0) =~= x.text);
}

/// Spec: the characters of the input that survive the normal-mode
/// scan: a separator character is dropped in discard mode and kept
/// otherwise; a backslash is dropped (unless a separator keeps it)
/// and the character after it is kept in translated form; every other
/// character is kept.
pub open spec fn kept_chars(cs: Seq<char>, j: int, seps: Seq<Separator>) -> Seq<char>
    decreases cs.len() - j,
{
    if j < 0 || j >= cs.len() {
        Seq::<char>::empty()
    } else {
        let c = cs[j];
        let head = match first_sep(seps, c) {
            Some(sep) => if sep.mode is Discard {
                Seq::<char>::empty()
            } else {
                seq![c]
            },
            None => if c == '\\' {
                Seq::<char>::empty()
            } else {
                seq![c]
            },
        };
        if c == '\\' && j + 1 < cs.len() {
            head + seq![translate_escape(cs[j + 1])] + kept_chars(cs, j + 2, seps)
        } else {
            head + kept_chars(cs, j + 1, seps)
        }
    }
}

/// On an input whose characters never open a scope, the concatenated
/// texts of the normal-mode scan's fragments are the buffer followed
/// by the surviving characters of the rest of the input.
proof fn lemma_normal_flat(
    cs: Seq<char>,
    j: int,
    buf: Seq<char>,
    pos: int,
    line: int,
    seps: Seq<Separator>,
    scopes: Seq<Scope>,
    eols: Seq<char>,
)
    requires
        forall|k: int| j <= k < cs.len() ==> first_scope(scopes, #[trigger] cs[k]) is None,
    ensures
        flat_from(spec_normal(cs, j, buf, pos, line, seps, scopes, eols).0, 0) == buf + kept_chars(
            cs,
            j,
            seps,
        ),
    decreases cs.len() - j,
{
    let nr = spec_normal(cs, j, buf, pos, line, seps, scopes, eols);
    if j < 0 || j >= cs.len() {
        if buf.len() > 0 {
            assert(flat_from(nr.0, 0) == nr.0[0].text + flat_from(nr.0, 1));
            assert(flat_from(nr.0, 0) =~= buf + kept_chars(cs, j, seps));
        } else {
            assert(flat_from(nr.0, 0) =~= buf + kept_chars(cs, j, seps));
        }
    } else {
        let c = cs[j];
        let buf1 = buf.push(c);
        let se = (match first_sep(seps, c) {
            Some(sep) => sep_flush(buf1, c, sep, pos, line),
            None => (Seq::<SplitItemV>::empty(), buf1),
        });
        let head = (match first_sep(seps, c) {
            Some(sep) => if sep.mode is Discard {
                Seq::<char>::empty()
            } else {
                seq![c]
            },
            None => if c == '\\' {
                Seq::<char>::empty()
            } else {
                seq![c]
            },
        });
        assert(first_scope(scopes, c) is None);
        match first_sep(seps, c) {
            Some(sep) => {
                assert(se.1 =~= Seq::<char>::empty());
                assert(flat_from(se.0, 0) =~= buf + head) by {
                    match sep.mode {
                        IncludeMode::Aggregate => {
                            assert(flat_from(se.0, 0) == se.0[0].text + flat_from(se.0, 1));
                        },
                        IncludeMode::Separate => {
                            assert(flat_from(se.0, 0) == se.0[0].text + flat_from(se.0, 1));
                            assert(flat_from(se.0, 1) == se.0[1].text + flat_from(se.0, 2));
                            assert(buf1.drop_last() =~= buf);
                        },
                        IncludeMode::Discard => {
                            assert(flat_from(se.0, 0) == se.0[0].text + flat_from(se.0, 1));
                            assert(buf1.drop_last() =~= buf);
                        },
                    }
                }
            },
            None => {
                assert(flat_from(se.0, 0) =~= Seq::<char>::empty());
            },
        }
        if c == '\\' {
            let e = spec_escaped(cs, j + 1, pop_last(se.1), pos, line, eols);
            let pl = advance_pos(e.2, e.3, c, eols);
            let rest = spec_normal(cs, e.1, e.0, pl.0, pl.1, seps, scopes, eols);
            lemma_normal_flat(cs, e.1, e.0, pl.0, pl.1, seps, scopes, eols);
            lemma_flat_concat(se.0, rest.0);
            assert(flat_from(nr.0, 0) =~= buf + kept_chars(cs, j, seps)) by {
                assert(nr.0 == se.0 + rest.0);
                assert(flat_from(rest.0, 0) == e.0 + kept_chars(cs, e.1, seps));
                if first_sep(seps, c) is Some {
                    assert(pop_last(se.1) =~= Seq::<char>::empty());
                } else {
                    assert(pop_last(se.1) =~= buf);
                }
                if j + 1 < cs.len() {
                    assert(e.1 == j + 2);
                    assert(e.0 =~= pop_last(se.1) + seq![translate_escape(cs[j + 1])]);
                    assert(kept_chars(cs, j, seps) == head + seq![translate_escape(cs[j + 1])]
                        + kept_chars(cs, j + 2, seps));
                } else {
                    assert(e.1 == j + 1);
                    assert(e.0 == pop_last(se.1));
                    assert(kept_chars(cs, j, seps) == head + kept_chars(cs, j + 1, seps));
                }
                assert((flat_from(se.0, 0) + e.0) + kept_chars(cs, e.1, seps) =~= (buf + kept_chars(
                    cs,
                    j,
                    seps,
                )));
                assert(flat_from(se.0, 0) + (e.0 + kept_chars(cs, e.1, seps)) =~= (flat_from(se.0, 0)
                    + e.0) + kept_chars(cs, e.1, seps));
            }
        } else {
            let pl = advance_pos(pos, line, c, eols);
            let rest = spec_normal(cs, j + 1, se.1, pl.0, pl.1, seps, scopes, eols);
            lemma_normal_flat(cs, j + 1, se.1, pl.0, pl.1, seps, scopes, eols);
            lemma_flat_concat(se.0, rest.0);
            assert(flat_from(nr.0, 0) =~= buf + kept_chars(cs, j, seps)) by {
                assert(nr.0 == se.0 + rest.0);
                assert(flat_from(rest.0, 0) == se.1 + kept_chars(cs, j + 1, seps));
                assert(kept_chars(cs, j, seps) == head + kept_chars(cs, j + 1, seps));
                assert(flat_from(se.0, 0) + (se.1 + kept_chars(cs, j + 1, seps)) =~= (flat_from(
                    se.0,
                    0,
                ) + se.1) + kept_chars(cs, j + 1, seps));
            }
        }
    }
}

/// Fusing `n` fragments keeps the concatenated text: the merged text
/// followed by the rest equals the whole tail.
proof fn lemma_run_text_flat(items: Seq<SplitItemV>, i: int, n: int)
    requires
        0 <= i,
        0 <= n,
        i + n <= items.len(),
    ensures
        flat_from(items, i) == run_text(items, i, n) + flat_from(items, i + n),
    decreases n,
{
    if n == 0 {
        assert(run_text(items, i, 0) + flat_from(items, i) =~= flat_from(items, i));
    } else {
        lemma_run_text_flat(items, i, n - 1);
        assert(flat_from(items, i + n - 1) == items[i + n - 1].text + flat_from(items, i + n));
        assert(run_text(items, i, n - 1) + (items[i + n - 1].text + flat_from(items, i + n))
            =~= (run_text(items, i, n - 1) + items[i + n - 1].text) + flat_from(items, i + n));
    }
}

/// One aggregation pass keeps the concatenated text of the fragments.
proof fn lemma_pass_flat(items: Seq<SplitItemV>, aggs: Seq<Seq<MatcherV>>, i: int)
    requires
        0 <= i <= items.len(),
    ensures
        flat_from(spec_pass(items, aggs, i).0, 0) == flat_from(items, i),
    decreases items.len() - i,
{
    if i < items.len() {
        lemma_first_rule_from(items, aggs, i, 0);
        match first_rule_from(items, aggs, i, 0) {
            Some(k) => {
                let n = aggs[k].len() as int;
                let rest = spec_pass(items, aggs, i + n);
                lemma_pass_flat(items, aggs, i + n);
                lemma_run_text_flat(items, i, n);
                lemma_flat_concat(seq![merged_item(items, i, n)], rest.0);
                assert(flat_from(seq![merged_item(items, i, n)], 1) =~= Seq::<char>::empty());
                assert(flat_from(seq![merged_item(items, i, n)], 0) =~= run_text(items, i, n));
            },
            None => {
                let rest = spec_pass(items, aggs, i + 1);
                lemma_pass_flat(items, aggs, i + 1);
                lemma_flat_concat(seq![items[i]], rest.0);
                assert(flat_from(seq![items[i]], 1) =~= Seq::<char>::empty());
                assert(flat_from(seq![items[i]], 0) =~= items[i].text);
            },
        }
    } else {
        assert(flat_from(spec_pass(items, aggs, i).0, 0) =~= Seq::<char>::empty());
    }
}

/// Dropping empty fragments keeps the concatenated text.
proof fn lemma_filter_flat(items: Seq<SplitItemV>)
    ensures
        flat_from(nonempty_filter(items), 0) == flat_from(items, 0),
    decreases items.len(),
{
    if items.len() > 0 {
        lemma_filter_flat(items.drop_last());
        lemma_flat_from_push(items.drop_last(), items.last());
        if items.last().text.len() > 0 {
            lemma_flat_from_push(nonempty_filter(items.drop_last()), items.last());
        } else {
            assert(flat_from(items.drop_last(), 0) + items.last().text =~= flat_from(
                items.drop_last(),
                0,
            ));
        }
        assert(items.drop_last().push(items.last()) =~= items);
    }
}

/// Aggregation to the fixed point keeps the concatenated text.
proof fn lemma_aggregate_flat(items: Seq<SplitItemV>, aggs: Seq<Seq<MatcherV>>)
    ensures
        flat_from(spec_aggregate(items, aggs), 0) == flat_from(items, 0),
    decreases items.len(),
{
    let pr = spec_pass(items, aggs, 0);
    lemma_pass_shrinks(items, aggs, 0);
    lemma_pass_flat(items, aggs, 0);
    if pr.1 {
        lemma_aggregate_flat(pr.0, aggs);
    }
}

/// Spec: the texts of the tokens from index `i` on, concatenated in
/// order.
pub open spec fn token_flat_from(toks: Seq<TokenV>, i: int) -> Seq<char>
    decreases toks.len() - i,
{
    if i < 0 || i >= toks.len() {
        Seq::<char>::empty()
    } else {
        toks[i].data.text + token_flat_from(toks, i + 1)
    }
}

/// Classification keeps every fragment's text.
proof fn lemma_classify_flat(items: Seq<SplitItemV>, tid: MatcherV, i: int)
    requires
        0 <= i <= items.len(),
    ensures
        token_flat_from(items.map_values(|it: SplitItemV| spec_build(it, tid)), i) == flat_from(
            items,
            i,
        ),
    decreases items.len() - i,
{
    if i < items.len() {
        lemma_classify_flat(items, tid, i + 1);
    }
}

/// Law: reconstruction. `tokenize` always terminates (every loop and
/// recursion in this crate carries a termination measure), and on any
/// input none of whose characters opens a scope, the concatenation of
/// the output tokens' texts is exactly the input with discard-mode
/// separator characters removed and escape sequences translated, as
/// [`kept_chars`] states.
pub proof fn lemma_tokenize_reconstructs(
    cs: Seq<char>,
    seps: Seq<Separator>,
    scopes: Seq<Scope>,
    eols: Seq<char>,
    aggs: Seq<Seq<MatcherV>>,
    tid: MatcherV,
)
    requires
        forall|k: int| 0 <= k < cs.len() ==> first_scope(scopes, #[trigger] cs[k]) is None,
    ensures
        token_flat_from(spec_tokenize(cs, seps, scopes, eols, aggs, tid), 0) == kept_chars(
            cs,
            0,
            seps,
        ),
{
    let raw = spec_normal(cs, 0, Seq::<char>::empty(), 0, 0, seps, scopes, eols).0;
    lemma_normal_flat(cs, 0, Seq::<char>::empty(), 0, 0, seps, scopes, eols);
    assert(Seq::<char>::empty() + kept_chars(cs, 0, seps) =~= kept_chars(cs, 0, seps));
    lemma_filter_flat(raw);
    lemma_aggregate_flat(nonempty_filter(raw), aggs);
    lemma_classify_flat(spec_split_string(cs, seps, scopes, eols, aggs), tid, 0);
}

} // verus!
