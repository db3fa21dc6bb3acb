//! The block-structure parser: consumes logical lines and produces the
//! ordered `Document` of section headers, variable definitions (which
//! feed substitution) and blocks.
//!
//! The grammar is deliberately permissive: there is no error outcome.
//! Unterminated groups, code fences and tables are closed by the end of
//! input, and the text block alternative always matches. A text block
//! ends at a blank line, at the end of input, or just before a line
//! that closes an enclosing structure (`}` or `|===`), so a group or
//! table closes even when no blank line precedes its closing line.
//!
//! The meaning of parsing is the specification function `spec_document`,
//! a recursive machine over the line-source state from `lines`. The
//! executable parser is proved to return exactly its value, to terminate
//! (every loop and recursion carries a measure), and to consume the
//! whole input.

use vstd::prelude::*;

use crate::lines::{
    lemma_step_m, st_cp, st_m, st_next, st_peek, st_stuck, st_wf, LineSource, SrcState,
};
use crate::model::{
    lemma_model_attributes_push, lemma_model_block_datas_push, lemma_model_cols_push,
    lemma_model_list_els_push, lemma_model_parts_push, lemma_model_rows_push,
    lemma_model_vars_push, model_attributes, model_block_datas, model_cols, model_list_els,
    model_parts, model_rows, model_vars, Attribute, Block, BlockData, Document, ListEl, Part,
    SpecAttribute, SpecBlock, SpecBlockData, SpecDocument, SpecListEl, SpecPart, SpecTableCol,
    SpecTableRow, TableCol, TableRow,
};
use crate::text::{name_end, spec_all_in_one, TextParser};

verus! {

// ---------------------------------------------------------------------------
// Line-level helpers.
// ---------------------------------------------------------------------------

/// The `----` fence around a code block.
pub open spec fn code_delim() -> Seq<u8> {
    seq![45u8, 45u8, 45u8, 45u8]
}

/// The `|===` fence around a table.
pub open spec fn table_delim() -> Seq<u8> {
    seq![124u8, 61u8, 61u8, 61u8]
}

/// The index of the first byte at or after `i` that is not `=`.
pub open spec fn eq_run_end(line: Seq<u8>, i: int) -> int
    decreases line.len() - i,
{
    if i < 0 || i >= line.len() {
        i
    } else if line[i] == 61 {
        eq_run_end(line, i + 1)
    } else {
        i
    }
}

/// The depth of a section header line: the length of the leading `=` run,
/// provided it is non-empty and followed directly by a space.
pub open spec fn header_depth(line: Seq<u8>) -> Option<int> {
    if line.len() > 0 && line[0] == 61 {
        let k = eq_run_end(line, 0);
        if k < line.len() && line[k] == 32 {
            Some(k)
        } else {
            None
        }
    } else {
        None
    }
}

/// The name and value of a variable definition line `:name: value`, if
/// the line has that form. The name is one or more letters or
/// underscores.
pub open spec fn vardef_parts(line: Seq<u8>) -> Option<(Seq<u8>, Seq<u8>)> {
    if line.len() > 0 && line[0] == 58 {
        let j = name_end(line, 1);
        if j > 1 && j + 1 < line.len() && line[j] == 58 && line[j + 1] == 32 {
            Some((line.subrange(1, j), line.subrange(j + 2, line.len() as int)))
        } else {
            None
        }
    } else {
        None
    }
}

/// The index of the first comma at or after `i`, or the end of the line.
pub open spec fn comma_end(line: Seq<u8>, i: int) -> int
    decreases line.len() - i,
{
    if i < 0 || i >= line.len() {
        i
    } else if line[i] == 44 {
        i
    } else {
        comma_end(line, i + 1)
    }
}

/// The attribute on a `[name]` or `[name,args]` line, split at the first
/// comma; `None` if the line is not bracket-delimited.
pub open spec fn attr_of_line(line: Seq<u8>) -> Option<SpecAttribute> {
    if line.len() == 0 || line[0] != 91 || line[line.len() - 1] != 93 {
        None
    } else {
        let inner = line.subrange(1, line.len() - 1);
        let p = comma_end(inner, 0);
        if p < inner.len() {
            Some(
                SpecAttribute {
                    name: inner.subrange(0, p),
                    args: Some(inner.subrange(p + 1, inner.len() as int)),
                },
            )
        } else {
            Some(SpecAttribute { name: inner, args: None })
        }
    }
}

/// Splits the tail of a simple table row line (from position `i`, with
/// the current column starting at `col_start`) at every unescaped `|`.
/// Escaped `\|` and `\\` pass through into the column text.
pub open spec fn row_split(line: Seq<u8>, i: int, col_start: int, acc: Seq<Seq<u8>>) -> Seq<
    Seq<u8>,
>
    decreases line.len() - i,
{
    if i < 0 || i >= line.len() {
        acc.push(line.subrange(col_start, line.len() as int))
    } else if i + 1 < line.len() && line[i] == 92 && (line[i + 1] == 92 || line[i + 1] == 124) {
        row_split(line, i + 2, col_start, acc)
    } else if line[i] == 124 {
        row_split(line, i + 1, i + 1, acc.push(line.subrange(col_start, i)))
    } else {
        row_split(line, i + 1, col_start, acc)
    }
}

/// The columns of a simple row: each split cell, substituted and
/// inline-parsed.
pub open spec fn cols_text(cells: Seq<Seq<u8>>, vars: Seq<(Seq<u8>, Seq<u8>)>) -> Seq<SpecTableCol>
    decreases cells,
{
    if cells.len() == 0 {
        Seq::empty()
    } else {
        cols_text(cells.drop_last(), vars).push(
            SpecTableCol::Simple(spec_all_in_one(cells.last(), vars)),
        )
    }
}

// ---------------------------------------------------------------------------
// The parsing machine.
//
// Every function takes the input `s` and the line-source state `st` and
// returns its value together with the state it leaves behind. The
// `if st_m(..) < st_m(..)`-shaped guards around recursive calls keep the
// recursion well founded; the executable parser proves that each guard
// holds on every state the source can actually reach, so the fallback
// branches describe no reachable behaviour.
// ---------------------------------------------------------------------------

/// Skips blank lines: while the peeked line is empty and the end flag is
/// not yet set, consume it. Leaves the lookahead filled.
pub open spec fn sp_blanks(s: Seq<u8>, st: SrcState) -> SrcState
    decreases st_m(s, st), st_cp(st),
{
    let (l, st1) = st_peek(s, st);
    if l.len() == 0 && !st1.eof {
        let (l2, st2) = st_next(s, st1);
        if st_m(s, st2) < st_m(s, st) || (st_m(s, st2) == st_m(s, st) && st_cp(st2) < st_cp(st)) {
            sp_blanks(s, st2)
        } else {
            st2
        }
    } else {
        st1
    }
}

/// Recognizes a section header at the lookahead: its depth and the rest
/// of the line after the space. Consumes the line only on success.
pub open spec fn sp_header(s: Seq<u8>, st: SrcState) -> (Option<(int, Seq<u8>)>, SrcState) {
    let (line, st1) = st_peek(s, st);
    match header_depth(line) {
        Some(depth) => {
            let (l2, st2) = st_next(s, st1);
            (Some((depth, line.subrange(depth + 1, line.len() as int))), st2)
        },
        None => (None, st1),
    }
}

/// Recognizes a variable definition at the lookahead. Consumes the line
/// only on success.
pub open spec fn sp_vardef(s: Seq<u8>, st: SrcState) -> (Option<(Seq<u8>, Seq<u8>)>, SrcState) {
    let (line, st1) = st_peek(s, st);
    match vardef_parts(line) {
        Some(nv) => {
            let (l2, st2) = st_next(s, st1);
            (Some(nv), st2)
        },
        None => (None, st1),
    }
}

/// Recognizes one attribute line at the lookahead, without consuming it.
pub open spec fn sp_attribute(s: Seq<u8>, st: SrcState) -> (Option<SpecAttribute>, SrcState) {
    let (line, st1) = st_peek(s, st);
    (attr_of_line(line), st1)
}

/// Collects consecutive attribute lines.
pub open spec fn sp_attributes(s: Seq<u8>, st: SrcState, acc: Seq<SpecAttribute>) -> (
    Seq<SpecAttribute>,
    SrcState,
)
    decreases st_m(s, st), 0int,
{
    if st.eof {
        (acc, st)
    } else {
        let (a_opt, st1) = sp_attribute(s, st);
        match a_opt {
            Some(a) => {
                let (l2, st2) = st_next(s, st1);
                if st_m(s, st2) < st_m(s, st) {
                    sp_attributes(s, st2, acc.push(a))
                } else {
                    (acc.push(a), st2)
                }
            },
            None => (acc, st1),
        }
    }
}

/// The blocks inside a `{` ... `}` group: blank lines are skipped between
/// them, and the group ends at `}` or at the end of input.
pub open spec fn sp_grouped_items(
    s: Seq<u8>,
    st: SrcState,
    vars: Seq<(Seq<u8>, Seq<u8>)>,
    acc: Seq<SpecBlockData>,
) -> (Seq<SpecBlockData>, SrcState)
    decreases st_m(s, st), 8int,
{
    let stb = sp_blanks(s, st);
    if stb.eof {
        (acc, stb)
    } else {
        let (l, st1) = st_peek(s, stb);
        if l == seq![125u8] {
            (acc, st1)
        } else {
            if st_m(s, st1) <= st_m(s, st) {
                let (bd, st2) = sp_block(s, st1, vars);
                if st_m(s, st2) < st_m(s, st) {
                    sp_grouped_items(s, st2, vars, acc.push(bd))
                } else {
                    (acc.push(bd), st2)
                }
            } else {
                (acc, st1)
            }
        }
    }
}

/// A grouped block: a line `{` opens it; the closing `}` is optional at
/// the end of input. The line after the items (the `}`, or whatever the
/// end of input left) is consumed.
pub open spec fn sp_grouped(s: Seq<u8>, st: SrcState, vars: Seq<(Seq<u8>, Seq<u8>)>) -> (
    Option<Seq<SpecBlockData>>,
    SrcState,
)
    decreases st_m(s, st), 1int,
{
    let (l, st1) = st_peek(s, st);
    if l == seq![123u8] {
        let (l2, st2) = st_next(s, st1);
        if st_m(s, st2) < st_m(s, st) {
            let (blocks, st3) = sp_grouped_items(s, st2, vars, Seq::empty());
            let (l3, st4) = st_next(s, st3);
            (Some(blocks), st4)
        } else {
            (Some(Seq::empty()), st2)
        }
    } else {
        (None, st1)
    }
}

/// The lines of a code block, joined with newlines, up to the closing
/// fence or the end of input.
pub open spec fn sp_code_lines(s: Seq<u8>, st: SrcState, acc: Seq<u8>) -> (Seq<u8>, SrcState)
    decreases st_m(s, st), 0int,
{
    if st.eof {
        (acc, st)
    } else {
        let (l, st1) = st_next(s, st);
        if l == code_delim() {
            (acc, st1)
        } else {
            if st_m(s, st1) < st_m(s, st) {
                sp_code_lines(s, st1, acc + l + seq![10u8])
            } else {
                (acc, st1)
            }
        }
    }
}

/// A code block: a `----` fence opens it; the content is captured byte
/// for byte, newline-joined with no trailing newline.
pub open spec fn sp_code(s: Seq<u8>, st: SrcState) -> (Option<Seq<u8>>, SrcState)
    decreases st_m(s, st), 1int,
{
    let (l, st1) = st_peek(s, st);
    if l == code_delim() {
        let (l2, st2) = st_next(s, st1);
        if st_m(s, st2) < st_m(s, st) {
            let (code, st3) = sp_code_lines(s, st2, Seq::empty());
            let trimmed = if code.len() > 0 {
                code.drop_last()
            } else {
                code
            };
            (Some(trimmed), st3)
        } else {
            (Some(Seq::empty()), st2)
        }
    } else {
        (None, st1)
    }
}

/// The cells of one table row: simple `|`-lines contribute split cells,
/// any other line contributes one nested block; the row ends at a blank
/// line (or the end of input, whose peeked line is empty) or at the
/// closing table fence.
pub open spec fn sp_row_cols(
    s: Seq<u8>,
    st: SrcState,
    vars: Seq<(Seq<u8>, Seq<u8>)>,
    acc: Seq<SpecTableCol>,
) -> (Seq<SpecTableCol>, SrcState)
    decreases st_m(s, st), 8int,
{
    let (l, st1) = st_peek(s, st);
    if l.len() == 0 || l == table_delim() {
        (acc, st1)
    } else if l[0] == 124 {
        let (l2, st2) = st_next(s, st1);
        let newacc = acc + cols_text(row_split(l, 1, 1, Seq::empty()), vars);
        if st_m(s, st2) < st_m(s, st) {
            sp_row_cols(s, st2, vars, newacc)
        } else {
            (newacc, st2)
        }
    } else {
        if st_m(s, st1) <= st_m(s, st) {
            let (bd, st2) = sp_block(s, st1, vars);
            if st_m(s, st2) < st_m(s, st) {
                sp_row_cols(s, st2, vars, acc.push(SpecTableCol::Complex(bd)))
            } else {
                (acc.push(SpecTableCol::Complex(bd)), st2)
            }
        } else {
            (acc, st1)
        }
    }
}

/// The rows of a table, up to the closing `|===` fence or the end of
/// input; blank lines between rows are skipped.
pub open spec fn sp_table_rows(
    s: Seq<u8>,
    st: SrcState,
    vars: Seq<(Seq<u8>, Seq<u8>)>,
    acc: Seq<SpecTableRow>,
) -> (Seq<SpecTableRow>, SrcState)
    decreases st_m(s, st), 9int,
{
    let stb = sp_blanks(s, st);
    if stb.eof {
        (acc, stb)
    } else {
        let (l, st1) = st_peek(s, stb);
        if l == table_delim() {
            (acc, st1)
        } else {
            if st_m(s, st1) <= st_m(s, st) {
                let (cols, st2) = sp_row_cols(s, st1, vars, Seq::empty());
                if st_m(s, st2) < st_m(s, st) {
                    sp_table_rows(s, st2, vars, acc.push(SpecTableRow { cols }))
                } else {
                    (acc.push(SpecTableRow { cols }), st2)
                }
            } else {
                (acc, st1)
            }
        }
    }
}

/// A table: a `|===` fence opens it; the line after the rows (the
/// closing fence, or whatever the end of input left) is consumed.
pub open spec fn sp_table(s: Seq<u8>, st: SrcState, vars: Seq<(Seq<u8>, Seq<u8>)>) -> (
    Option<Seq<SpecTableRow>>,
    SrcState,
)
    decreases st_m(s, st), 1int,
{
    let (l, st1) = st_peek(s, st);
    if l == table_delim() {
        let (l2, st2) = st_next(s, st1);
        if st_m(s, st2) < st_m(s, st) {
            let (rows, st3) = sp_table_rows(s, st2, vars, Seq::empty());
            let (l3, st4) = st_next(s, st3);
            (Some(rows), st4)
        } else {
            (Some(Seq::empty()), st2)
        }
    } else {
        (None, st1)
    }
}

/// The continuation lines of a simple list item: lines starting with two
/// spaces, each joined to the accumulated text with a single space.
pub open spec fn sp_item_cont(s: Seq<u8>, st: SrcState, acc: Seq<u8>) -> (Seq<u8>, SrcState)
    decreases st_m(s, st), 0int,
{
    let (l, st1) = st_peek(s, st);
    if l.len() >= 2 && l[0] == 32 && l[1] == 32 {
        let (l2, st2) = st_next(s, st1);
        if st_m(s, st2) < st_m(s, st) {
            sp_item_cont(s, st2, acc + seq![32u8] + l.subrange(2, l.len() as int))
        } else {
            (acc, st2)
        }
    } else {
        (acc, st1)
    }
}

/// The items of a list: `* ` starts a simple item, a bare `**` line
/// starts a complex item holding one nested block; the list ends at the
/// first line matching neither.
pub open spec fn sp_list_items(
    s: Seq<u8>,
    st: SrcState,
    vars: Seq<(Seq<u8>, Seq<u8>)>,
    acc: Seq<SpecListEl>,
) -> (Seq<SpecListEl>, SrcState)
    decreases st_m(s, st), 5int,
{
    let (l, st1) = st_peek(s, st);
    if l.len() < 2 {
        (acc, st1)
    } else if l == seq![42u8, 42u8] {
        let (l2, st2) = st_next(s, st1);
        if st_m(s, st2) < st_m(s, st) {
            let (bd, st3) = sp_block(s, st2, vars);
            if st_m(s, st3) < st_m(s, st) {
                sp_list_items(s, st3, vars, acc.push(SpecListEl::Complex(bd)))
            } else {
                (acc.push(SpecListEl::Complex(bd)), st3)
            }
        } else {
            (acc, st2)
        }
    } else if l[0] == 42 && l[1] == 32 {
        let (l2, st2) = st_next(s, st1);
        let (buf, st3) = if st_m(s, st2) < st_m(s, st) {
            sp_item_cont(s, st2, l.subrange(2, l.len() as int))
        } else {
            (l.subrange(2, l.len() as int), st2)
        };
        let item = SpecListEl::Simple(spec_all_in_one(buf, vars));
        if st_m(s, st3) < st_m(s, st) {
            sp_list_items(s, st3, vars, acc.push(item))
        } else {
            (acc.push(item), st3)
        }
    } else {
        (acc, st1)
    }
}

/// A list block: one or more items. Zero items means the alternative
/// does not match.
pub open spec fn sp_list(s: Seq<u8>, st: SrcState, vars: Seq<(Seq<u8>, Seq<u8>)>) -> (
    Option<Seq<SpecListEl>>,
    SrcState,
)
    decreases st_m(s, st), 6int,
{
    let (items, st1) = sp_list_items(s, st, vars, Seq::empty());
    if items.len() == 0 {
        (None, st1)
    } else {
        (Some(items), st1)
    }
}

/// The lines of a text block, joined with single spaces, up to a blank
/// line or the end of input (either is consumed). A line that closes an
/// enclosing structure — exactly `}` or exactly `|===` — also ends the
/// text block and is left for the caller, so a group or table closes
/// there; only when such a line opens the block (nothing collected yet)
/// is it ordinary text, which keeps the fallback consuming.
pub open spec fn sp_text_lines(s: Seq<u8>, st: SrcState, acc: Seq<u8>) -> (Seq<u8>, SrcState)
    decreases st_m(s, st), 0int,
{
    let (l, st1) = st_peek(s, st);
    if l.len() == 0 {
        let (l2, st2) = st_next(s, st1);
        (acc, st2)
    } else if acc.len() > 0 && (l == seq![125u8] || l == table_delim()) {
        (acc, st1)
    } else {
        let (l2, st2) = st_next(s, st1);
        if st_m(s, st2) < st_m(s, st) {
            sp_text_lines(s, st2, acc + l + seq![32u8])
        } else {
            (acc, st2)
        }
    }
}

/// The text block fallback: always matches; the joined lines (without
/// the trailing space) are substituted and inline-parsed.
pub open spec fn sp_text(s: Seq<u8>, st: SrcState, vars: Seq<(Seq<u8>, Seq<u8>)>) -> (
    SpecBlock,
    SrcState,
)
    decreases st_m(s, st), 1int,
{
    let (txt, st1) = sp_text_lines(s, st, Seq::empty());
    let trimmed = if txt.len() > 0 {
        txt.drop_last()
    } else {
        txt
    };
    (SpecBlock::Text(spec_all_in_one(trimmed, vars)), st1)
}

/// One block with its attribute lines: the attributes are collected
/// first, then the grouped, code, table, list and text alternatives are
/// tried in that order; text always matches.
pub open spec fn sp_block(s: Seq<u8>, st: SrcState, vars: Seq<(Seq<u8>, Seq<u8>)>) -> (
    SpecBlockData,
    SrcState,
)
    decreases st_m(s, st), 7int,
{
    let (attrs, st1) = sp_attributes(s, st, Seq::empty());
    if st_m(s, st1) <= st_m(s, st) {
        let (g, st2) = sp_grouped(s, st1, vars);
        match g {
            Some(blocks) => (SpecBlockData { attributes: attrs, inner: SpecBlock::Grouped(blocks) }, st2),
            None => {
                if st_m(s, st2) <= st_m(s, st) {
                    let (c, st3) = sp_code(s, st2);
                    match c {
                        Some(code) => (
                            SpecBlockData { attributes: attrs, inner: SpecBlock::Code(code) },
                            st3,
                        ),
                        None => {
                            if st_m(s, st3) <= st_m(s, st) {
                                let (t, st4) = sp_table(s, st3, vars);
                                match t {
                                    Some(rows) => (
                                        SpecBlockData {
                                            attributes: attrs,
                                            inner: SpecBlock::Table(rows),
                                        },
                                        st4,
                                    ),
                                    None => {
                                        if st_m(s, st4) <= st_m(s, st) {
                                            let (li, st5) = sp_list(s, st4, vars);
                                            match li {
                                                Some(items) => (
                                                    SpecBlockData {
                                                        attributes: attrs,
                                                        inner: SpecBlock::List(items),
                                                    },
                                                    st5,
                                                ),
                                                None => {
                                                    if st_m(s, st5) <= st_m(s, st) {
                                                        let (txt, st6) = sp_text(s, st5, vars);
                                                        (
                                                            SpecBlockData {
                                                                attributes: attrs,
                                                                inner: txt,
                                                            },
                                                            st6,
                                                        )
                                                    } else {
                                                        (
                                                            SpecBlockData {
                                                                attributes: attrs,
                                                                inner: SpecBlock::Code(
                                                                    Seq::empty(),
                                                                ),
                                                            },
                                                            st5,
                                                        )
                                                    }
                                                },
                                            }
                                        } else {
                                            (
                                                SpecBlockData {
                                                    attributes: attrs,
                                                    inner: SpecBlock::Code(Seq::empty()),
                                                },
                                                st4,
                                            )
                                        }
                                    },
                                }
                            } else {
                                (
                                    SpecBlockData {
                                        attributes: attrs,
                                        inner: SpecBlock::Code(Seq::empty()),
                                    },
                                    st3,
                                )
                            }
                        },
                    }
                } else {
                    (
                        SpecBlockData { attributes: attrs, inner: SpecBlock::Code(Seq::empty()) },
                        st2,
                    )
                }
            },
        }
    } else {
        (SpecBlockData { attributes: attrs, inner: SpecBlock::Code(Seq::empty()) }, st1)
    }
}

/// The top-level units of a document: skip blank lines, then try a
/// section header, a variable definition, and the block fallback, in
/// that order, until the input is exhausted. Variable definitions
/// extend the binding list used by everything after them.
pub open spec fn sp_doc_units(
    s: Seq<u8>,
    st: SrcState,
    vars: Seq<(Seq<u8>, Seq<u8>)>,
    acc: Seq<SpecPart>,
) -> Seq<SpecPart>
    decreases st_m(s, st), 10int,
{
    if st.eof {
        acc
    } else {
        let stb = sp_blanks(s, st);
        if stb.eof {
            acc
        } else if st_m(s, stb) <= st_m(s, st) {
            let (h, st1) = sp_header(s, stb);
            match h {
                Some(dr) => {
                    let part = SpecPart::SectionHeader(
                        dr.0 as nat,
                        spec_all_in_one(dr.1, vars),
                    );
                    if st_m(s, st1) < st_m(s, st) {
                        sp_doc_units(s, st1, vars, acc.push(part))
                    } else {
                        acc.push(part)
                    }
                },
                None => {
                    let (v, st2) = sp_vardef(s, st1);
                    match v {
                        Some(nv) => {
                            if st_m(s, st2) < st_m(s, st) {
                                sp_doc_units(s, st2, vars.push(nv), acc)
                            } else {
                                acc
                            }
                        },
                        None => {
                            if st_m(s, st2) <= st_m(s, st) {
                                let (bd, st3) = sp_block(s, st2, vars);
                                if st_m(s, st3) < st_m(s, st) {
                                    sp_doc_units(s, st3, vars, acc.push(SpecPart::Block(bd)))
                                } else {
                                    acc.push(SpecPart::Block(bd))
                                }
                            } else {
                                acc
                            }
                        },
                    }
                },
            }
        } else {
            acc
        }
    }
}

/// The meaning of parsing: the document that the machine produces from
/// the whole input, starting with no bindings and no parts.
pub open spec fn spec_document(s: Seq<u8>) -> SpecDocument {
    SpecDocument {
        parts: sp_doc_units(
            s,
            SrcState { pos: 0, cache: None, eof: false },
            Seq::empty(),
            Seq::empty(),
        ),
    }
}

/// Parsing is a pure function of the input bytes: any two documents
/// that `parse` returns for the same input are equal, because `parse`
/// makes each of them the one value `spec_document` gives that input.
/// The parts of that value stand in source order: the machine above
/// appends each recognized unit as it is consumed.
pub proof fn lemma_parse_deterministic(s: Seq<u8>, d1: SpecDocument, d2: SpecDocument)
    requires
        d1 == spec_document(s),
        d2 == spec_document(s),
    ensures
        d1 == d2,
{
}

/// The step from a prefix equation over a pushed accumulator back to
/// the accumulator itself.
proof fn lemma_prefix_push(r: Seq<SpecPart>, acc: Seq<SpecPart>, part: SpecPart)
    requires
        r.len() >= acc.len() + 1,
        r.subrange(0, acc.len() as int + 1) == acc.push(part),
    ensures
        r.subrange(0, acc.len() as int) == acc,
{
    assert(r.subrange(0, acc.len() as int) =~= r.subrange(0, acc.len() as int + 1).subrange(
        0,
        acc.len() as int,
    ));
    assert(r.subrange(0, acc.len() as int + 1).subrange(0, acc.len() as int) =~= acc);
}

/// The parts of a document stand in source order: the machine only ever
/// appends the unit it has just consumed, so the parts already
/// collected keep their places, and every unit consumed later in the
/// input lands strictly after them.
pub proof fn lemma_doc_units_order(
    s: Seq<u8>,
    st: SrcState,
    vars: Seq<(Seq<u8>, Seq<u8>)>,
    acc: Seq<SpecPart>,
)
    ensures
        sp_doc_units(s, st, vars, acc).len() >= acc.len(),
        sp_doc_units(s, st, vars, acc).subrange(0, acc.len() as int) == acc,
    decreases st_m(s, st),
{
    let n = acc.len() as int;
    if st.eof {
        assert(acc.subrange(0, n) =~= acc);
    } else {
        let stb = sp_blanks(s, st);
        if stb.eof {
            assert(acc.subrange(0, n) =~= acc);
        } else if st_m(s, stb) <= st_m(s, st) {
            let (h, st1) = sp_header(s, stb);
            match h {
                Some(dr) => {
                    let part = SpecPart::SectionHeader(dr.0 as nat, spec_all_in_one(dr.1, vars));
                    if st_m(s, st1) < st_m(s, st) {
                        lemma_doc_units_order(s, st1, vars, acc.push(part));
                        lemma_prefix_push(sp_doc_units(s, st1, vars, acc.push(part)), acc, part);
                    } else {
                        assert(acc.push(part).subrange(0, n) =~= acc);
                    }
                },
                None => {
                    let (v, st2) = sp_vardef(s, st1);
                    match v {
                        Some(nv) => {
                            if st_m(s, st2) < st_m(s, st) {
                                lemma_doc_units_order(s, st2, vars.push(nv), acc);
                            } else {
                                assert(acc.subrange(0, n) =~= acc);
                            }
                        },
                        None => {
                            if st_m(s, st2) <= st_m(s, st) {
                                let (bd, st3) = sp_block(s, st2, vars);
                                let part = SpecPart::Block(bd);
                                if st_m(s, st3) < st_m(s, st) {
                                    lemma_doc_units_order(s, st3, vars, acc.push(part));
                                    lemma_prefix_push(
                                        sp_doc_units(s, st3, vars, acc.push(part)),
                                        acc,
                                        part,
                                    );
                                } else {
                                    assert(acc.push(part).subrange(0, n) =~= acc);
                                }
                            } else {
                                assert(acc.subrange(0, n) =~= acc);
                            }
                        },
                    }
                },
            }
        } else {
            assert(acc.subrange(0, n) =~= acc);
        }
    }
}

// ---------------------------------------------------------------------------
// The executable parser.
// ---------------------------------------------------------------------------

/// The model of a list of owned lines.
pub open spec fn lines_model(s: Seq<Vec<u8>>) -> Seq<Seq<u8>>
    decreases s,
{
    if s.len() == 0 {
        Seq::empty()
    } else {
        lines_model(s.drop_last()).push(s.last()@)
    }
}

pub proof fn lemma_lines_model_push(s: Seq<Vec<u8>>, x: Vec<u8>)
    ensures
        lines_model(s.push(x)) == lines_model(s).push(x@),
{
    assert(s.push(x).drop_last() =~= s);
    assert(s.push(x).last() == x);
}

pub proof fn lemma_lines_model_props(s: Seq<Vec<u8>>)
    ensures
        lines_model(s).len() == s.len(),
        forall|i: int| 0 <= i < s.len() ==> lines_model(s)[i] == #[trigger] s[i]@,
    decreases s,
{
    if s.len() > 0 {
        lemma_lines_model_props(s.drop_last());
        assert forall|i: int| 0 <= i < s.len() implies lines_model(s)[i] == s[i]@ by {
            if i < s.len() - 1 {
                assert(s.drop_last()[i] == s[i]);
                assert(lines_model(s.drop_last())[i] == s.drop_last()[i]@);
            } else {
                assert(s.last() == s[i]);
            }
        }
    }
}

fn is_code_delim(l: &[u8]) -> (r: bool)
    ensures
        r == (l@ == code_delim()),
{
    let r = l.len() == 4 && l[0] == 45 && l[1] == 45 && l[2] == 45 && l[3] == 45;
    proof {
        if r {
            assert(l@ =~= code_delim());
        }
    }
    r
}

fn is_table_delim(l: &[u8]) -> (r: bool)
    ensures
        r == (l@ == table_delim()),
{
    let r = l.len() == 4 && l[0] == 124 && l[1] == 61 && l[2] == 61 && l[3] == 61;
    proof {
        if r {
            assert(l@ =~= table_delim());
        }
    }
    r
}

fn is_open_brace(l: &[u8]) -> (r: bool)
    ensures
        r == (l@ == seq![123u8]),
{
    let r = l.len() == 1 && l[0] == 123;
    proof {
        if r {
            assert(l@ =~= seq![123u8]);
        }
    }
    r
}

fn is_close_brace(l: &[u8]) -> (r: bool)
    ensures
        r == (l@ == seq![125u8]),
{
    let r = l.len() == 1 && l[0] == 125;
    proof {
        if r {
            assert(l@ =~= seq![125u8]);
        }
    }
    r
}

fn is_star_star(l: &[u8]) -> (r: bool)
    ensures
        r == (l@ == seq![42u8, 42u8]),
{
    let r = l.len() == 2 && l[0] == 42 && l[1] == 42;
    proof {
        if r {
            assert(l@ =~= seq![42u8, 42u8]);
        }
    }
    r
}

/// Splits a simple table row line into cells, inline-parses each, and
/// appends the columns to `out`.
fn append_simple_cols(out: &mut Vec<TableCol>, line: &[u8], vars: &Vec<(Vec<u8>, Vec<u8>)>)
    requires
        line@.len() >= 1,
    ensures
        model_cols(final(out)@) == model_cols(old(out)@) + cols_text(
            row_split(line@, 1, 1, Seq::empty()),
            model_vars(vars@),
        ),
{
    let ghost vm = model_vars(vars@);
    let mut cells: Vec<Vec<u8>> = Vec::new();
    let mut i: usize = 1;
    let mut col_start: usize = 1;
    proof {
        assert(lines_model(cells@) =~= Seq::<Seq<u8>>::empty());
    }
    while i < line.len()
        invariant
            1 <= col_start <= i <= line@.len(),
            row_split(line@, i as int, col_start as int, lines_model(cells@)) == row_split(
                line@,
                1,
                1,
                Seq::<Seq<u8>>::empty(),
            ),
        decreases line@.len() - i,
    {
        if i + 1 < line.len() && line[i] == 92 && (line[i + 1] == 92 || line[i + 1] == 124) {
            i = i + 2;
        } else if line[i] == 124 {
            let cell = crate::bytes::range_vec(line, col_start, i);
            proof {
                lemma_lines_model_push(cells@, cell);
            }
            cells.push(cell);
            col_start = i + 1;
            i = i + 1;
        } else {
            i = i + 1;
        }
    }
    let cell = crate::bytes::range_vec(line, col_start, line.len());
    proof {
        lemma_lines_model_push(cells@, cell);
    }
    cells.push(cell);
    let ghost cellsm = lines_model(cells@);
    proof {
        lemma_lines_model_props(cells@);
        assert(cellsm == row_split(line@, 1, 1, Seq::<Seq<u8>>::empty()));
    }
    // inline-parse each cell
    let mut k: usize = 0;
    proof {
        assert(cellsm.subrange(0, 0) =~= Seq::<Seq<u8>>::empty());
        assert(model_cols(out@) + cols_text(cellsm.subrange(0, 0), vm) =~= model_cols(out@));
    }
    while k < cells.len()
        invariant
            0 <= k <= cells@.len(),
            vm == model_vars(vars@),
            cellsm == lines_model(cells@),
            cellsm.len() == cells@.len(),
            forall|j: int| 0 <= j < cells@.len() ==> cellsm[j] == #[trigger] cells@[j]@,
            model_cols(out@) == model_cols(old(out)@) + cols_text(
                cellsm.subrange(0, k as int),
                vm,
            ),
        decreases cells@.len() - k,
    {
        let tb = TextParser::all_in_one(cells[k].as_slice(), vars);
        let col = TableCol::Simple(tb);
        proof {
            lemma_model_cols_push(out@, col);
            assert(cellsm.subrange(0, k + 1).drop_last() =~= cellsm.subrange(0, k as int));
            assert(cellsm.subrange(0, k + 1).last() == cellsm[k as int]);
        }
        out.push(col);
        k = k + 1;
    }
    proof {
        assert(cellsm.subrange(0, cellsm.len() as int) =~= cellsm);
    }
}

/// The stateful parser: the line source and the variable bindings
/// collected so far.
pub struct DocParser<'a> {
    pub src: LineSource<'a>,
    pub vars: Vec<(Vec<u8>, Vec<u8>)>,
}

impl<'a> DocParser<'a> {
    /// The input bytes.
    pub open spec fn s(&self) -> Seq<u8> {
        self.src.input()
    }

    /// The line-source state.
    pub open spec fn st(&self) -> SrcState {
        self.src.st()
    }

    /// The model of the binding list.
    pub open spec fn vm(&self) -> Seq<(Seq<u8>, Seq<u8>)> {
        model_vars(self.vars@)
    }

    pub open spec fn wf(&self) -> bool {
        self.src.wf()
    }

    /// Skips blank lines, leaving the lookahead filled.
    fn blank_lines(&mut self)
        requires
            old(self).wf(),
        ensures
            final(self).wf(),
            final(self).s() == old(self).s(),
            final(self).vars == old(self).vars,
            final(self).st() == sp_blanks(old(self).s(), old(self).st()),
            final(self).st().cache is Some,
            !final(self).st().eof ==> (final(self).st().cache matches Some(l) && l.len() > 0),
            st_m(final(self).s(), final(self).st()) <= st_m(old(self).s(), old(self).st()),
            old(self).st().eof ==> final(self).st().eof,
    {
        let ghost s = self.s();
        let ghost st0 = self.st();
        loop
            invariant
                self.wf(),
                self.s() == s,
                self.vars == old(self).vars,
                sp_blanks(s, self.st()) == sp_blanks(s, st0),
                st_m(s, self.st()) <= st_m(s, st0),
                st0.eof ==> self.st().eof,
            ensures
                self.wf(),
                self.s() == s,
                self.vars == old(self).vars,
                self.st() == sp_blanks(s, st0),
                self.st().cache is Some,
                !self.st().eof ==> (self.st().cache matches Some(l) && l.len() > 0),
                st_m(s, self.st()) <= st_m(s, st0),
                st0.eof ==> self.st().eof,
            decreases st_m(s, self.st()), st_cp(self.st()),
        {
            let ghost x = self.st();
            proof {
                lemma_step_m(s, x);
            }
            let l = self.src.peek_line();
            if l.len() > 0 {
                break ;
            }
            if self.src.at_end() {
                break ;
            }
            let _ = self.src.next_line();
        }
    }

    /// Recognizes a section header at the lookahead; consumes the line
    /// and returns its depth and remainder only on success.
    fn section_header(&mut self) -> (r: Option<(usize, Vec<u8>)>)
        requires
            old(self).wf(),
        ensures
            final(self).wf(),
            final(self).s() == old(self).s(),
            final(self).vars == old(self).vars,
            match r {
                Some(dr) => {
                    &&& sp_header(old(self).s(), old(self).st()).0 == Some(
                        (dr.0 as int, dr.1@),
                    )
                    &&& final(self).st() == sp_header(old(self).s(), old(self).st()).1
                    &&& st_m(final(self).s(), final(self).st()) < st_m(
                        old(self).s(),
                        old(self).st(),
                    )
                },
                None => {
                    &&& sp_header(old(self).s(), old(self).st()).0 is None
                    &&& final(self).st() == st_peek(old(self).s(), old(self).st()).1
                    &&& final(self).st() == sp_header(old(self).s(), old(self).st()).1
                },
            },
    {
        let ghost s = self.s();
        proof {
            lemma_step_m(s, self.st());
        }
        let line = self.src.peek_line();
        if line.len() == 0 || line[0] != 61 {
            return None;
        }
        let mut k: usize = 0;
        while k < line.len() && line[k] == 61
            invariant
                0 <= k <= line@.len(),
                eq_run_end(line@, k as int) == eq_run_end(line@, 0),
            decreases line@.len() - k,
        {
            k = k + 1;
        }
        assert(eq_run_end(line@, 0) == k);
        if k >= line.len() || line[k] != 32 {
            return None;
        }
        proof {
            lemma_step_m(s, st_peek(s, self.st()).1);
        }
        let _ = self.src.next_line();
        let rest = crate::bytes::range_vec(line.as_slice(), k + 1, line.len());
        Some((k, rest))
    }

    /// Recognizes a variable definition at the lookahead; consumes the
    /// line and returns the name and value only on success.
    fn var_def(&mut self) -> (r: Option<(Vec<u8>, Vec<u8>)>)
        requires
            old(self).wf(),
        ensures
            final(self).wf(),
            final(self).s() == old(self).s(),
            final(self).vars == old(self).vars,
            match r {
                Some(nv) => {
                    &&& sp_vardef(old(self).s(), old(self).st()).0 == Some((nv.0@, nv.1@))
                    &&& final(self).st() == sp_vardef(old(self).s(), old(self).st()).1
                    &&& st_m(final(self).s(), final(self).st()) < st_m(
                        old(self).s(),
                        old(self).st(),
                    )
                },
                None => {
                    &&& sp_vardef(old(self).s(), old(self).st()).0 is None
                    &&& final(self).st() == st_peek(old(self).s(), old(self).st()).1
                    &&& final(self).st() == sp_vardef(old(self).s(), old(self).st()).1
                },
            },
    {
        let ghost s = self.s();
        proof {
            lemma_step_m(s, self.st());
        }
        let line = self.src.peek_line();
        if line.len() == 0 || line[0] != 58 {
            return None;
        }
        let mut j: usize = 1;
        while j < line.len() && crate::text::is_name_byte_exec(line[j])
            invariant
                1 <= j <= line@.len(),
                name_end(line@, j as int) == name_end(line@, 1),
            decreases line@.len() - j,
        {
            j = j + 1;
        }
        assert(name_end(line@, 1) == j);
        if j <= 1 || j >= line.len() || line[j] != 58 {
            return None;
        }
        if j + 1 >= line.len() || line[j + 1] != 32 {
            return None;
        }
        proof {
            lemma_step_m(s, st_peek(s, self.st()).1);
        }
        let _ = self.src.next_line();
        let name = crate::bytes::range_vec(line.as_slice(), 1, j);
        let val = crate::bytes::range_vec(line.as_slice(), j + 2, line.len());
        Some((name, val))
    }

    /// Recognizes one attribute line at the lookahead, without consuming
    /// it.
    fn attribute(&mut self) -> (r: Option<Attribute>)
        requires
            old(self).wf(),
        ensures
            final(self).wf(),
            final(self).s() == old(self).s(),
            final(self).vars == old(self).vars,
            final(self).st() == st_peek(old(self).s(), old(self).st()).1,
            match r {
                Some(a) => attr_of_line(st_peek(old(self).s(), old(self).st()).0) == Some(
                    a.model(),
                ),
                None => attr_of_line(st_peek(old(self).s(), old(self).st()).0) is None,
            },
    {
        let ghost s = self.s();
        proof {
            lemma_step_m(s, self.st());
        }
        let line = self.src.peek_line();
        if line.len() == 0 || line[0] != 91 || line[line.len() - 1] != 93 {
            return None;
        }
        let inner = crate::bytes::range_vec(line.as_slice(), 1, line.len() - 1);
        let mut p: usize = 0;
        while p < inner.len() && inner[p] != 44
            invariant
                0 <= p <= inner@.len(),
                comma_end(inner@, p as int) == comma_end(inner@, 0),
            decreases inner@.len() - p,
        {
            p = p + 1;
        }
        assert(comma_end(inner@, 0) == p);
        if p < inner.len() {
            let name = crate::bytes::range_vec(inner.as_slice(), 0, p);
            let args = crate::bytes::range_vec(inner.as_slice(), p + 1, inner.len());
            Some(Attribute { name, args: Some(args) })
        } else {
            Some(Attribute { name: inner, args: None })
        }
    }

    /// Collects consecutive attribute lines, consuming each.
    fn attributes(&mut self) -> (r: Vec<Attribute>)
        requires
            old(self).wf(),
        ensures
            final(self).wf(),
            final(self).s() == old(self).s(),
            final(self).vars == old(self).vars,
            (model_attributes(r@), final(self).st()) == sp_attributes(
                old(self).s(),
                old(self).st(),
                Seq::<SpecAttribute>::empty(),
            ),
            st_m(final(self).s(), final(self).st()) <= st_m(old(self).s(), old(self).st()),
            old(self).st().eof ==> final(self).st().eof,
            final(self).st() == old(self).st() || final(self).st() == st_peek(
                old(self).s(),
                old(self).st(),
            ).1 || st_m(final(self).s(), final(self).st()) < st_m(old(self).s(), old(self).st()),
    {
        let ghost s = self.s();
        let ghost st0 = self.st();
        let mut out: Vec<Attribute> = Vec::new();
        proof {
            assert(model_attributes(out@) =~= Seq::<SpecAttribute>::empty());
        }
        loop
            invariant_except_break
                self.st() == st0 || st_m(s, self.st()) < st_m(s, st0),
            invariant
                self.wf(),
                self.s() == s,
                self.vars == old(self).vars,
                st_m(s, self.st()) <= st_m(s, st0),
                st0.eof ==> self.st().eof,
                sp_attributes(s, self.st(), model_attributes(out@)) == sp_attributes(
                    s,
                    st0,
                    Seq::<SpecAttribute>::empty(),
                ),
            ensures
                self.wf(),
                self.s() == s,
                self.vars == old(self).vars,
                (model_attributes(out@), self.st()) == sp_attributes(
                    s,
                    st0,
                    Seq::<SpecAttribute>::empty(),
                ),
                st_m(s, self.st()) <= st_m(s, st0),
                st0.eof ==> self.st().eof,
                self.st() == st0 || self.st() == st_peek(s, st0).1 || st_m(s, self.st()) < st_m(
                    s,
                    st0,
                ),
            decreases st_m(s, self.st()),
        {
            let ghost x = self.st();
            proof {
                lemma_step_m(s, x);
            }
            if self.src.at_end() {
                break ;
            }
            let a = self.attribute();
            match a {
                Some(a) => {
                    proof {
                        lemma_step_m(s, self.st());
                        lemma_model_attributes_push(out@, a);
                    }
                    let _ = self.src.next_line();
                    out.push(a);
                },
                None => {
                    break ;
                },
            }
        }
        out
    }

    /// The text block fallback: joins lines up to a blank line (or the
    /// end of input) with single spaces and inline-parses the result.
    fn text_block(&mut self) -> (r: crate::model::TextBlock)
        requires
            old(self).wf(),
        ensures
            final(self).wf(),
            final(self).s() == old(self).s(),
            final(self).vars == old(self).vars,
            (SpecBlock::Text(r.model()), final(self).st()) == sp_text(
                old(self).s(),
                old(self).st(),
                old(self).vm(),
            ),
            st_m(final(self).s(), final(self).st()) <= st_m(old(self).s(), old(self).st()),
            (old(self).st().cache matches Some(l) && l.len() > 0) || (old(self).st().cache is None
                && !old(self).st().eof) ==> st_m(final(self).s(), final(self).st()) < st_m(
                old(self).s(),
                old(self).st(),
            ),
            st_stuck(old(self).s(), old(self).st()) && old(self).st().cache is None
                ==> final(self).st() == old(self).st(),
            old(self).st().eof ==> final(self).st().eof,
    {
        let ghost s = self.s();
        let ghost st0 = self.st();
        let mut txt: Vec<u8> = Vec::new();
        loop
            invariant_except_break
                self.st() == st0 || st_m(s, self.st()) < st_m(s, st0),
                txt@.len() > 0 ==> st_m(s, self.st()) < st_m(s, st0),
                sp_text_lines(s, self.st(), txt@) == sp_text_lines(s, st0, Seq::<u8>::empty()),
            invariant
                self.wf(),
                self.s() == s,
                self.vars == old(self).vars,
                st_wf(s, st0),
                st0.eof ==> self.st().eof,
            ensures
                self.wf(),
                self.s() == s,
                self.vars == old(self).vars,
                (txt@, self.st()) == sp_text_lines(s, st0, Seq::<u8>::empty()),
                st_m(s, self.st()) <= st_m(s, st0),
                (st0.cache matches Some(l) && l.len() > 0) || (st0.cache is None && !st0.eof)
                    ==> st_m(s, self.st()) < st_m(s, st0),
                st_stuck(s, st0) && st0.cache is None ==> self.st() == st0,
                st0.eof ==> self.st().eof,
            decreases st_m(s, self.st()),
        {
            let ghost x = self.st();
            proof {
                lemma_step_m(s, x);
            }
            let l = self.src.peek_line();
            proof {
                lemma_step_m(s, self.st());
            }
            if l.len() == 0 {
                let _ = self.src.next_line();
                break ;
            }
            if txt.len() > 0 && (is_close_brace(l.as_slice()) || is_table_delim(l.as_slice())) {
                break ;
            }
            let _ = self.src.next_line();
            let ghost txt0 = txt@;
            crate::bytes::push_range(&mut txt, l.as_slice(), 0, l.len());
            txt.push(32);
            proof {
                assert(txt@ =~= txt0 + l@ + seq![32u8]);
            }
        }
        if txt.len() > 0 {
            let _ = txt.pop();
        }
        let tb = TextParser::all_in_one(txt.as_slice(), &self.vars);
        tb
    }

    /// A code block, if a `----` fence stands at the lookahead: captures
    /// lines byte for byte up to the closing fence or the end of input.
    fn code_block(&mut self) -> (r: Option<Vec<u8>>)
        requires
            old(self).wf(),
        ensures
            final(self).wf(),
            final(self).s() == old(self).s(),
            final(self).vars == old(self).vars,
            old(self).st().eof ==> final(self).st().eof,
            match r {
                Some(code) => {
                    &&& sp_code(old(self).s(), old(self).st()).0 == Some(code@)
                    &&& final(self).st() == sp_code(old(self).s(), old(self).st()).1
                    &&& st_m(final(self).s(), final(self).st()) < st_m(
                        old(self).s(),
                        old(self).st(),
                    )
                },
                None => {
                    &&& sp_code(old(self).s(), old(self).st()).0 is None
                    &&& final(self).st() == st_peek(old(self).s(), old(self).st()).1
                    &&& final(self).st() == sp_code(old(self).s(), old(self).st()).1
                },
            },
    {
        let ghost s = self.s();
        proof {
            lemma_step_m(s, self.st());
        }
        let l = self.src.peek_line();
        if !is_code_delim(l.as_slice()) {
            return None;
        }
        let ghost stp = self.st();
        proof {
            lemma_step_m(s, stp);
        }
        let _ = self.src.next_line();
        let ghost st2 = self.st();
        let mut code: Vec<u8> = Vec::new();
        loop
            invariant_except_break
                sp_code_lines(s, self.st(), code@) == sp_code_lines(
                    s,
                    st2,
                    Seq::<u8>::empty(),
                ),
            invariant
                self.wf(),
                self.s() == s,
                self.vars == old(self).vars,
                self.st().cache is None,
                st2.eof ==> self.st().eof,
                st_m(s, self.st()) <= st_m(s, st2),
            ensures
                self.wf(),
                self.s() == s,
                self.vars == old(self).vars,
                st2.eof ==> self.st().eof,
                st_m(s, self.st()) <= st_m(s, st2),
                (code@, self.st()) == sp_code_lines(s, st2, Seq::<u8>::empty()),
            decreases st_m(s, self.st()),
        {
            let ghost x = self.st();
            proof {
                lemma_step_m(s, x);
            }
            if self.src.at_end() {
                break ;
            }
            let line = self.src.next_line();
            if is_code_delim(line.as_slice()) {
                break ;
            }
            let ghost code0 = code@;
            crate::bytes::push_range(&mut code, line.as_slice(), 0, line.len());
            code.push(10);
            proof {
                assert(code@ =~= code0 + line@ + seq![10u8]);
            }
        }
        if code.len() > 0 {
            let _ = code.pop();
        }
        Some(code)
    }

    /// A grouped block, if a `{` line stands at the lookahead.
    fn grouped_block(&mut self) -> (r: Option<Vec<BlockData>>)
        requires
            old(self).wf(),
        ensures
            final(self).wf(),
            final(self).s() == old(self).s(),
            final(self).vars == old(self).vars,
            old(self).st().eof ==> final(self).st().eof,
            match r {
                Some(blocks) => {
                    &&& sp_grouped(old(self).s(), old(self).st(), old(self).vm()).0 == Some(
                        model_block_datas(blocks@),
                    )
                    &&& final(self).st() == sp_grouped(
                        old(self).s(),
                        old(self).st(),
                        old(self).vm(),
                    ).1
                    &&& st_m(final(self).s(), final(self).st()) < st_m(
                        old(self).s(),
                        old(self).st(),
                    )
                },
                None => {
                    &&& sp_grouped(old(self).s(), old(self).st(), old(self).vm()).0 is None
                    &&& final(self).st() == st_peek(old(self).s(), old(self).st()).1
                    &&& final(self).st() == sp_grouped(
                        old(self).s(),
                        old(self).st(),
                        old(self).vm(),
                    ).1
                },
            },
        decreases st_m(old(self).s(), old(self).st()), 1int,
    {
        let ghost s = self.s();
        let ghost st0 = self.st();
        proof {
            lemma_step_m(s, st0);
        }
        let l = self.src.peek_line();
        if !is_open_brace(l.as_slice()) {
            return None;
        }
        proof {
            lemma_step_m(s, self.st());
        }
        let _ = self.src.next_line();
        let mut blocks: Vec<BlockData> = Vec::new();
        proof {
            assert(model_block_datas(blocks@) =~= Seq::<SpecBlockData>::empty());
        }
        self.grouped_items(&mut blocks);
        proof {
            lemma_step_m(s, self.st());
        }
        let _ = self.src.next_line();
        Some(blocks)
    }

    /// The blocks inside a group, up to the closing `}` or the end of
    /// input.
    fn grouped_items(&mut self, blocks: &mut Vec<BlockData>)
        requires
            old(self).wf(),
        ensures
            final(self).wf(),
            final(self).s() == old(self).s(),
            final(self).vars == old(self).vars,
            old(self).st().eof ==> final(self).st().eof,
            st_m(final(self).s(), final(self).st()) <= st_m(old(self).s(), old(self).st()),
            final(self).st().cache is Some,
            (model_block_datas(final(blocks)@), final(self).st()) == sp_grouped_items(
                old(self).s(),
                old(self).st(),
                old(self).vm(),
                model_block_datas(old(blocks)@),
            ),
        decreases st_m(old(self).s(), old(self).st()), 8int,
    {
        let ghost s = self.s();
        let ghost st0 = self.st();
        self.blank_lines();
        if self.src.at_end() {
            return ;
        }
        proof {
            lemma_step_m(s, self.st());
        }
        let l = self.src.peek_line();
        if is_close_brace(l.as_slice()) {
            return ;
        }
        let bd = self.block();
        proof {
            lemma_model_block_datas_push(blocks@, bd);
        }
        blocks.push(bd);
        self.grouped_items(blocks);
    }

    /// Joins the two-space continuation lines of a simple list item onto
    /// `buf`, one space between each.
    fn item_cont(&mut self, buf: &mut Vec<u8>)
        requires
            old(self).wf(),
        ensures
            final(self).wf(),
            final(self).s() == old(self).s(),
            final(self).vars == old(self).vars,
            old(self).st().eof ==> final(self).st().eof,
            (final(buf)@, final(self).st()) == sp_item_cont(
                old(self).s(),
                old(self).st(),
                old(buf)@,
            ),
            st_m(final(self).s(), final(self).st()) <= st_m(old(self).s(), old(self).st()),
    {
        let ghost s = self.s();
        let ghost st0 = self.st();
        loop
            invariant
                self.wf(),
                self.s() == s,
                self.vars == old(self).vars,
                st0.eof ==> self.st().eof,
                st_m(s, self.st()) <= st_m(s, st0),
                sp_item_cont(s, self.st(), buf@) == sp_item_cont(s, st0, old(buf)@),
            ensures
                self.wf(),
                self.s() == s,
                self.vars == old(self).vars,
                st0.eof ==> self.st().eof,
                st_m(s, self.st()) <= st_m(s, st0),
                (buf@, self.st()) == sp_item_cont(s, st0, old(buf)@),
            decreases st_m(s, self.st()),
        {
            let ghost x = self.st();
            proof {
                lemma_step_m(s, x);
            }
            let l = self.src.peek_line();
            if !(l.len() >= 2 && l[0] == 32 && l[1] == 32) {
                break ;
            }
            proof {
                lemma_step_m(s, self.st());
            }
            let _ = self.src.next_line();
            let ghost buf0 = buf@;
            buf.push(32);
            crate::bytes::push_range(buf, l.as_slice(), 2, l.len());
            proof {
                assert(buf@ =~= buf0 + seq![32u8] + l@.subrange(2, l@.len() as int));
            }
        }
    }

    /// The items of a list, until a line matches neither item form.
    #[verifier::rlimit(100)]
    fn list_items(&mut self, items: &mut Vec<ListEl>)
        requires
            old(self).wf(),
        ensures
            final(self).wf(),
            final(self).s() == old(self).s(),
            final(self).vars == old(self).vars,
            old(self).st().eof ==> final(self).st().eof,
            st_m(final(self).s(), final(self).st()) <= st_m(old(self).s(), old(self).st()),
            (model_list_els(final(items)@), final(self).st()) == sp_list_items(
                old(self).s(),
                old(self).st(),
                old(self).vm(),
                model_list_els(old(items)@),
            ),
            final(items)@.len() >= old(items)@.len(),
            final(items)@.len() == old(items)@.len() ==> final(self).st() == st_peek(
                old(self).s(),
                old(self).st(),
            ).1,
            final(items)@.len() > old(items)@.len() ==> st_m(final(self).s(), final(self).st())
                < st_m(old(self).s(), old(self).st()),
        decreases st_m(old(self).s(), old(self).st()), 5int,
    {
        let ghost s = self.s();
        let ghost st0 = self.st();
        proof {
            lemma_step_m(s, st0);
        }
        let l = self.src.peek_line();
        if l.len() < 2 {
            return ;
        }
        if is_star_star(l.as_slice()) {
            proof {
                lemma_step_m(s, self.st());
            }
            let _ = self.src.next_line();
            let bd = self.block();
            let el = ListEl::Complex(bd);
            proof {
                lemma_model_list_els_push(items@, el);
            }
            items.push(el);
            self.list_items(items);
        } else if l[0] == 42 && l[1] == 32 {
            proof {
                lemma_step_m(s, self.st());
            }
            let _ = self.src.next_line();
            let mut buf = crate::bytes::range_vec(l.as_slice(), 2, l.len());
            self.item_cont(&mut buf);
            let tb = TextParser::all_in_one(buf.as_slice(), &self.vars);
            let el = ListEl::Simple(tb);
            proof {
                lemma_model_list_els_push(items@, el);
            }
            items.push(el);
            self.list_items(items);
        }
    }

    /// A list block: one or more simple (`* `) or complex (`**`) items;
    /// zero items means no match.
    fn list_block(&mut self) -> (r: Option<Vec<ListEl>>)
        requires
            old(self).wf(),
        ensures
            final(self).wf(),
            final(self).s() == old(self).s(),
            final(self).vars == old(self).vars,
            old(self).st().eof ==> final(self).st().eof,
            st_m(final(self).s(), final(self).st()) <= st_m(old(self).s(), old(self).st()),
            match r {
                Some(items) => {
                    &&& sp_list(old(self).s(), old(self).st(), old(self).vm()).0 == Some(
                        model_list_els(items@),
                    )
                    &&& final(self).st() == sp_list(
                        old(self).s(),
                        old(self).st(),
                        old(self).vm(),
                    ).1
                    &&& st_m(final(self).s(), final(self).st()) < st_m(
                        old(self).s(),
                        old(self).st(),
                    )
                },
                None => {
                    &&& sp_list(old(self).s(), old(self).st(), old(self).vm()).0 is None
                    &&& final(self).st() == st_peek(old(self).s(), old(self).st()).1
                    &&& final(self).st() == sp_list(
                        old(self).s(),
                        old(self).st(),
                        old(self).vm(),
                    ).1
                },
            },
        decreases st_m(old(self).s(), old(self).st()), 6int,
    {
        let mut items: Vec<ListEl> = Vec::new();
        proof {
            assert(model_list_els(items@) =~= Seq::<SpecListEl>::empty());
        }
        self.list_items(&mut items);
        if items.len() == 0 {
            None
        } else {
            Some(items)
        }
    }

    /// The cells of one table row: `|` lines are split into simple
    /// cells, other lines contribute one nested block each; the row ends
    /// at a blank line.
    fn row_cols(&mut self, out: &mut Vec<TableCol>)
        requires
            old(self).wf(),
        ensures
            final(self).wf(),
            final(self).s() == old(self).s(),
            final(self).vars == old(self).vars,
            old(self).st().eof ==> final(self).st().eof,
            st_m(final(self).s(), final(self).st()) <= st_m(old(self).s(), old(self).st()),
            (model_cols(final(out)@), final(self).st()) == sp_row_cols(
                old(self).s(),
                old(self).st(),
                old(self).vm(),
                model_cols(old(out)@),
            ),
            st_peek(old(self).s(), old(self).st()).0.len() > 0 && st_peek(
                old(self).s(),
                old(self).st(),
            ).0 != table_delim() ==> st_m(final(self).s(), final(self).st()) < st_m(
                old(self).s(),
                old(self).st(),
            ),
        decreases st_m(old(self).s(), old(self).st()), 8int,
    {
        let ghost s = self.s();
        let ghost st0 = self.st();
        proof {
            lemma_step_m(s, st0);
        }
        let l = self.src.peek_line();
        if l.len() == 0 || is_table_delim(l.as_slice()) {
            return ;
        }
        if l[0] == 124 {
            proof {
                lemma_step_m(s, self.st());
            }
            let line = self.src.next_line();
            append_simple_cols(out, line.as_slice(), &self.vars);
            self.row_cols(out);
        } else {
            let bd = self.block();
            let col = TableCol::Complex(bd);
            proof {
                lemma_model_cols_push(out@, col);
            }
            out.push(col);
            self.row_cols(out);
        }
    }

    /// The rows of a table, up to the closing fence or the end of input.
    fn table_rows(&mut self, rows: &mut Vec<TableRow>)
        requires
            old(self).wf(),
        ensures
            final(self).wf(),
            final(self).s() == old(self).s(),
            final(self).vars == old(self).vars,
            old(self).st().eof ==> final(self).st().eof,
            st_m(final(self).s(), final(self).st()) <= st_m(old(self).s(), old(self).st()),
            final(self).st().cache is Some,
            (model_rows(final(rows)@), final(self).st()) == sp_table_rows(
                old(self).s(),
                old(self).st(),
                old(self).vm(),
                model_rows(old(rows)@),
            ),
        decreases st_m(old(self).s(), old(self).st()), 9int,
    {
        let ghost s = self.s();
        let ghost st0 = self.st();
        self.blank_lines();
        if self.src.at_end() {
            return ;
        }
        proof {
            lemma_step_m(s, self.st());
        }
        let l = self.src.peek_line();
        if is_table_delim(l.as_slice()) {
            return ;
        }
        let mut cols: Vec<TableCol> = Vec::new();
        proof {
            assert(model_cols(cols@) =~= Seq::<SpecTableCol>::empty());
        }
        self.row_cols(&mut cols);
        let row = TableRow { cols };
        proof {
            lemma_model_rows_push(rows@, row);
        }
        rows.push(row);
        self.table_rows(rows);
    }

    /// A table block, if a `|===` fence stands at the lookahead.
    fn table_block(&mut self) -> (r: Option<Vec<TableRow>>)
        requires
            old(self).wf(),
        ensures
            final(self).wf(),
            final(self).s() == old(self).s(),
            final(self).vars == old(self).vars,
            old(self).st().eof ==> final(self).st().eof,
            match r {
                Some(rows) => {
                    &&& sp_table(old(self).s(), old(self).st(), old(self).vm()).0 == Some(
                        model_rows(rows@),
                    )
                    &&& final(self).st() == sp_table(
                        old(self).s(),
                        old(self).st(),
                        old(self).vm(),
                    ).1
                    &&& st_m(final(self).s(), final(self).st()) < st_m(
                        old(self).s(),
                        old(self).st(),
                    )
                },
                None => {
                    &&& sp_table(old(self).s(), old(self).st(), old(self).vm()).0 is None
                    &&& final(self).st() == st_peek(old(self).s(), old(self).st()).1
                    &&& final(self).st() == sp_table(
                        old(self).s(),
                        old(self).st(),
                        old(self).vm(),
                    ).1
                },
            },
        decreases st_m(old(self).s(), old(self).st()), 1int,
    {
        let ghost s = self.s();
        let ghost st0 = self.st();
        proof {
            lemma_step_m(s, st0);
        }
        let l = self.src.peek_line();
        if !is_table_delim(l.as_slice()) {
            return None;
        }
        proof {
            lemma_step_m(s, self.st());
        }
        let _ = self.src.next_line();
        let mut rows: Vec<TableRow> = Vec::new();
        proof {
            assert(model_rows(rows@) =~= Seq::<SpecTableRow>::empty());
        }
        self.table_rows(&mut rows);
        proof {
            lemma_step_m(s, self.st());
        }
        let _ = self.src.next_line();
        Some(rows)
    }

    /// One block with its attribute lines: grouped, code, table, list
    /// and text are tried in that order; text always matches.
    #[verifier::rlimit(100)]
    fn block(&mut self) -> (r: BlockData)
        requires
            old(self).wf(),
        ensures
            final(self).wf(),
            final(self).s() == old(self).s(),
            final(self).vars == old(self).vars,
            old(self).st().eof ==> final(self).st().eof,
            (r.model(), final(self).st()) == sp_block(old(self).s(), old(self).st(), old(self).vm()),
            st_m(final(self).s(), final(self).st()) <= st_m(old(self).s(), old(self).st()),
            (old(self).st().cache matches Some(l) && l.len() > 0) || (old(self).st().cache is None
                && !old(self).st().eof) ==> st_m(final(self).s(), final(self).st()) < st_m(
                old(self).s(),
                old(self).st(),
            ),
        decreases st_m(old(self).s(), old(self).st()), 7int,
    {
        let ghost s = self.s();
        let ghost st0 = self.st();
        let ghost vm = self.vm();
        proof {
            lemma_step_m(s, st0);
        }
        let attributes = self.attributes();
        let ghost st1 = self.st();
        proof {
            lemma_step_m(s, st1);
        }
        let g = self.grouped_block();
        match g {
            Some(blocks) => {
                return BlockData { attributes, inner: Block::Grouped(blocks) };
            },
            None => {},
        }
        let ghost st2 = self.st();
        proof {
            lemma_step_m(s, st2);
        }
        let c = self.code_block();
        match c {
            Some(code) => {
                return BlockData { attributes, inner: Block::Code(code) };
            },
            None => {},
        }
        let ghost st3 = self.st();
        proof {
            lemma_step_m(s, st3);
        }
        let t = self.table_block();
        match t {
            Some(rows) => {
                return BlockData { attributes, inner: Block::Table(rows) };
            },
            None => {},
        }
        let ghost st4 = self.st();
        proof {
            lemma_step_m(s, st4);
        }
        let li = self.list_block();
        match li {
            Some(items) => {
                return BlockData { attributes, inner: Block::List(items) };
            },
            None => {},
        }
        let ghost st5 = self.st();
        proof {
            lemma_step_m(s, st5);
        }
        let tb = self.text_block();
        BlockData { attributes, inner: Block::Text(tb) }
    }

    /// The top-level units: skip blank lines, then try a section header,
    /// a variable definition, and the block fallback, in that order.
    #[verifier::rlimit(100)]
    fn doc_units(&mut self, parts: &mut Vec<Part>)
        requires
            old(self).wf(),
        ensures
            final(self).wf(),
            final(self).s() == old(self).s(),
            model_parts(final(parts)@) == sp_doc_units(
                old(self).s(),
                old(self).st(),
                old(self).vm(),
                model_parts(old(parts)@),
            ),
            final(self).st().eof,
        decreases st_m(old(self).s(), old(self).st()), 10int,
    {
        let ghost s = self.s();
        let ghost st0 = self.st();
        proof {
            lemma_step_m(s, st0);
        }
        if self.src.at_end() {
            return ;
        }
        self.blank_lines();
        if self.src.at_end() {
            return ;
        }
        proof {
            lemma_step_m(s, self.st());
        }
        match self.section_header() {
            Some((depth, rest)) => {
                let tb = TextParser::all_in_one(rest.as_slice(), &self.vars);
                let part = Part::SectionHeader(depth, tb);
                proof {
                    lemma_model_parts_push(parts@, part);
                }
                parts.push(part);
                self.doc_units(parts);
            },
            None => {
                match self.var_def() {
                    Some((name, val)) => {
                        proof {
                            lemma_model_vars_push(self.vars@, (name, val));
                        }
                        self.vars.push((name, val));
                        self.doc_units(parts);
                    },
                    None => {
                        let bd = self.block();
                        let part = Part::Block(bd);
                        proof {
                            lemma_model_parts_push(parts@, part);
                        }
                        parts.push(part);
                        self.doc_units(parts);
                    },
                }
            },
        }
    }

    /// Parses every unit of the document. Afterwards nothing is left to
    /// read: the end flag is set and the read position stands at the
    /// end of the input, so the whole buffer has been consumed.
    pub fn document(&mut self) -> (parts: Vec<Part>)
        requires
            old(self).wf(),
        ensures
            final(self).wf(),
            final(self).s() == old(self).s(),
            model_parts(parts@) == sp_doc_units(
                old(self).s(),
                old(self).st(),
                old(self).vm(),
                Seq::<SpecPart>::empty(),
            ),
            final(self).st().eof,
            final(self).src.pos as int == old(self).s().len(),
    {
        let mut parts: Vec<Part> = Vec::new();
        proof {
            assert(model_parts(parts@) =~= Seq::<SpecPart>::empty());
        }
        self.doc_units(&mut parts);
        parts
    }
}

/// Parses one doc comment into its document tree.
///
/// The result is exactly `spec_document(input@)`: parsing is a pure
/// function of the input bytes, so two parses of equal inputs give
/// equal trees (`lemma_parse_deterministic`) whose parts stand in
/// source order (`lemma_doc_units_order`). Parsing always terminates —
/// every loop and recursion in this crate carries a measure checked by
/// the verifier — and consumes the whole input, which `document`'s
/// postcondition states.
pub fn parse(input: &[u8]) -> (doc: Document)
    ensures
        doc.model() == spec_document(input@),
{
    let mut parser = DocParser { src: LineSource::new(input), vars: Vec::new() };
    proof {
        assert(model_vars(parser.vars@) =~= Seq::<(Seq<u8>, Seq<u8>)>::empty());
    }
    let parts = parser.document();
    Document { parts }
}

} // verus!
