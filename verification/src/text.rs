//! Variable substitution and the inline text parser.
//!
//! Substitution expands `{name}` references against an ordered binding
//! list, repeatedly, until a pass changes nothing; a pass bounded per
//! binding keeps cyclic definitions from looping forever (see `subst`).
//! Inline parsing then turns the substituted bytes into a `TextBlock`
//! tree of escape sequences, bold and verbatim spans, links and plain
//! runs.
//!
//! The meaning of both passes is given by the specification functions
//! `spec_subst` and `spec_inline`; the executable code is proved to
//! compute exactly those values.

use vstd::prelude::*;

use crate::model::{
    lemma_model_text_blocks_props, lemma_model_text_blocks_push, model_text_blocks, model_vars,
    SpecText, SpecTextBlock, Text, TextAttr, TextBlock,
};

verus! {

// ---------------------------------------------------------------------------
// Substitution: specification.
// ---------------------------------------------------------------------------

/// Bytes allowed in a variable name: ASCII letters and underscore.
pub open spec fn is_name_byte(b: u8) -> bool {
    (97 <= b <= 122) || (65 <= b <= 90) || b == 95
}

/// The value of the first binding for `name`, in definition order.
/// A redefinition of a name never shadows the first one.
pub open spec fn find_binding(vars: Seq<(Seq<u8>, Seq<u8>)>, name: Seq<u8>) -> Option<Seq<u8>>
    decreases vars.len(),
{
    if vars.len() == 0 {
        None
    } else if vars[0].0 == name {
        Some(vars[0].1)
    } else {
        find_binding(vars.drop_first(), name)
    }
}

/// The index of the first byte at or after `j` that is not a name byte.
pub open spec fn name_end(t: Seq<u8>, j: int) -> int
    decreases t.len() - j,
{
    if j < 0 || j >= t.len() {
        j
    } else if is_name_byte(t[j]) {
        name_end(t, j + 1)
    } else {
        j
    }
}

/// Whether position `i` (holding `{`) starts a well-formed, non-empty
/// `{name}` reference.
pub open spec fn looks_like_var(t: Seq<u8>, i: int) -> bool {
    let j = name_end(t, i + 1);
    j < t.len() && t[j] == 125 && j > i + 1
}

/// One left-to-right substitution pass from position `i`, with `acc` the
/// output so far and `did` whether a replacement has happened. Escaped
/// `\\` and `\{` are copied through unchanged, backslash included.
pub open spec fn subst_pass(
    t: Seq<u8>,
    vars: Seq<(Seq<u8>, Seq<u8>)>,
    i: int,
    acc: Seq<u8>,
    did: bool,
) -> (Seq<u8>, bool)
    decreases t.len() - i,
{
    if i < 0 || i >= t.len() {
        (acc, did)
    } else if i + 1 < t.len() && t[i] == 92 && (t[i + 1] == 92 || t[i + 1] == 123) {
        subst_pass(t, vars, i + 2, acc + t.subrange(i, i + 2), did)
    } else if t[i] == 123 && looks_like_var(t, i) && find_binding(
        vars,
        t.subrange(i + 1, name_end(t, i + 1)),
    ) is Some {
        let j = name_end(t, i + 1);
        let sub = find_binding(vars, t.subrange(i + 1, j))->0;
        if i < j + 1 <= t.len() {
            subst_pass(t, vars, j + 1, acc + sub, true)
        } else {
            (acc, did)
        }
    } else {
        subst_pass(t, vars, i + 1, acc.push(t[i]), did)
    }
}

/// Repeated substitution passes: stop after a pass that replaced nothing,
/// or once the pass budget is spent.
pub open spec fn subst_fix(t: Seq<u8>, vars: Seq<(Seq<u8>, Seq<u8>)>, fuel: nat) -> Seq<u8>
    decreases fuel,
{
    let (t2, did) = subst_pass(t, vars, 0, Seq::empty(), false);
    if !did || fuel == 0 {
        t2
    } else {
        subst_fix(t2, vars, (fuel - 1) as nat)
    }
}

/// Full substitution: one pass per defined binding, plus the final pass
/// that confirms nothing changed. For acyclic definitions this reaches
/// the same fixed point as re-scanning without a bound; cyclic
/// definitions stop here instead of looping forever.
pub open spec fn spec_subst(t: Seq<u8>, vars: Seq<(Seq<u8>, Seq<u8>)>) -> Seq<u8> {
    subst_fix(t, vars, vars.len())
}

// ---------------------------------------------------------------------------
// Inline parsing: specification.
// ---------------------------------------------------------------------------

/// The bytes of the `link:` keyword.
pub open spec fn link_prefix() -> Seq<u8> {
    seq![108u8, 105u8, 110u8, 107u8, 58u8]
}

/// The escape sequence starting at `i`, if any: the emitted bytes and the
/// position after it. A backslash escapes `\`, `` ` ``, `*`, `{`, `]`,
/// `|`, or the literal word `link:`.
pub open spec fn escape_at(t: Seq<u8>, i: int) -> Option<(Seq<u8>, int)> {
    if 0 <= i && i + 2 <= t.len() && t[i] == 92 {
        let c = t[i + 1];
        if c == 92 || c == 96 || c == 42 || c == 123 || c == 93 || c == 124 {
            Some((seq![c], i + 2))
        } else if i + 6 <= t.len() && t.subrange(i + 1, i + 6) == link_prefix() {
            Some((link_prefix(), i + 6))
        } else {
            None
        }
    } else {
        None
    }
}

/// Scans the interior of a span delimited by `c` from position `i`:
/// returns the collected bytes and the index of the closing delimiter
/// (or the end of input). `\c` and `\\` lose the backslash and do not
/// terminate the span.
pub open spec fn span_scan(t: Seq<u8>, c: u8, i: int, acc: Seq<u8>) -> (Seq<u8>, int)
    decreases t.len() - i,
{
    if i < 0 || i >= t.len() {
        (acc, i)
    } else if t[i] == c {
        (acc, i)
    } else if t[i] == 92 && i + 1 < t.len() && (t[i + 1] == 92 || t[i + 1] == c) {
        span_scan(t, c, i + 2, acc.push(t[i + 1]))
    } else {
        span_scan(t, c, i + 1, acc.push(t[i]))
    }
}

/// The index of the first space or `[` at or after `i`, or the end of
/// input: the end of a link target.
pub open spec fn target_end(t: Seq<u8>, i: int) -> int
    decreases t.len() - i,
{
    if i < 0 || i >= t.len() {
        i
    } else if t[i] == 32 || t[i] == 91 {
        i
    } else {
        target_end(t, i + 1)
    }
}

/// Scans explicit link text from position `j` up to an unescaped `]`:
/// returns the collected bytes (with `\]` and `\\` unescaped) and the
/// index of the `]`, or the end of input if there is none.
pub open spec fn ltext_scan(t: Seq<u8>, j: int, acc: Seq<u8>) -> (Seq<u8>, int)
    decreases t.len() - j,
{
    if j < 0 || j >= t.len() {
        (acc, j)
    } else if j + 1 < t.len() && t[j] == 92 && (t[j + 1] == 92 || t[j + 1] == 93) {
        ltext_scan(t, j + 2, acc.push(t[j + 1]))
    } else if t[j] == 93 {
        (acc, j)
    } else {
        ltext_scan(t, j + 1, acc.push(t[j]))
    }
}

/// Flushes a buffered raw run into the span list.
pub open spec fn finish_cur(cur: Option<Seq<u8>>, past: Seq<SpecTextBlock>) -> Seq<SpecTextBlock> {
    match cur {
        Some(c) => past.push(SpecTextBlock { attribute: None, inner: SpecText::Raw(c) }),
        None => past,
    }
}

/// Appends bytes to the buffered raw run, starting one if none is open.
pub open spec fn app_cur(cur: Option<Seq<u8>>, bytes: Seq<u8>) -> Option<Seq<u8>> {
    match cur {
        Some(c) => Some(c + bytes),
        None => Some(bytes),
    }
}

/// Wraps the result of parsing a span interior and stamps the span's
/// formatting attribute on it. A result that already carries an
/// attribute is first wrapped in a one-element nesting so that no
/// attribute is lost.
pub open spec fn stamp(inner: SpecTextBlock, attr: TextAttr) -> SpecTextBlock {
    if inner.attribute is None {
        SpecTextBlock { attribute: Some(attr), inner: inner.inner }
    } else {
        SpecTextBlock { attribute: Some(attr), inner: SpecText::Nested(seq![inner]) }
    }
}

/// The span machine: consumes `t` from position `i` with `cur` the open
/// raw run and `past` the finished spans, returning the final run and
/// span list. At each position it tries, in order: an escape sequence, a
/// bold span, a verbatim span, a link, and finally a plain byte. The
/// guards on the recursive calls only keep the recursion well founded;
/// parsing always advances.
pub open spec fn spans(t: Seq<u8>, i: int, cur: Option<Seq<u8>>, past: Seq<SpecTextBlock>) -> (
    Option<Seq<u8>>,
    Seq<SpecTextBlock>,
)
    decreases t.len(), t.len() - i,
{
    if i < 0 || i >= t.len() {
        (cur, past)
    } else if escape_at(t, i) is Some {
        let (emitted, i2) = escape_at(t, i)->0;
        spans(t, i2, app_cur(cur, emitted), past)
    } else if t[i] == 42 || t[i] == 96 {
        // a bold (`*`) or verbatim (backtick) span; only a bold interior
        // is parsed recursively
        let c = t[i];
        let (body, end) = span_scan(t, c, i + 1, Seq::empty());
        let i2 = if end + 1 <= t.len() {
            end + 1
        } else {
            t.len() as int
        };
        let inner = if c == 42 {
            if body.len() < t.len() {
                spec_inline(body)
            } else {
                SpecTextBlock { attribute: None, inner: SpecText::Raw(body) }
            }
        } else {
            SpecTextBlock { attribute: None, inner: SpecText::Raw(body) }
        };
        let attr = if c == 42 {
            TextAttr::Bold
        } else {
            TextAttr::Raw
        };
        let block = stamp(inner, attr);
        if i < i2 <= t.len() {
            spans(t, i2, None, finish_cur(cur, past).push(block))
        } else {
            (cur, past)
        }
    } else if i + 5 <= t.len() && t.subrange(i, i + 5) == link_prefix() {
        let ti = target_end(t, i + 5);
        let target = t.subrange(i + 5, ti);
        if ti < t.len() && t[ti] == 91 {
            let (ltxt, j) = ltext_scan(t, ti + 1, Seq::empty());
            if j < t.len() {
                // closing bracket found: explicit link text
                let inner = if ltxt.len() < t.len() {
                    spec_inline(ltxt)
                } else {
                    SpecTextBlock { attribute: None, inner: SpecText::Raw(ltxt) }
                };
                let block = SpecTextBlock {
                    attribute: None,
                    inner: SpecText::Link(target, Some(Box::new(inner))),
                };
                if i < j + 1 <= t.len() {
                    spans(t, j + 1, None, finish_cur(cur, past).push(block))
                } else {
                    (cur, past)
                }
            } else {
                // unterminated link text: bare target, the bracket is
                // reprocessed as plain text
                let block = SpecTextBlock { attribute: None, inner: SpecText::Link(target, None) };
                if i < ti <= t.len() {
                    spans(t, ti, None, finish_cur(cur, past).push(block))
                } else {
                    (cur, past)
                }
            }
        } else {
            let block = SpecTextBlock { attribute: None, inner: SpecText::Link(target, None) };
            if i < ti <= t.len() {
                spans(t, ti, None, finish_cur(cur, past).push(block))
            } else {
                (cur, past)
            }
        }
    } else {
        spans(t, i + 1, app_cur(cur, seq![t[i]]), past)
    }
}

/// The inline parse of a byte string: run the span machine and shape the
/// result. A single plain run is returned directly as `Raw` (canonical
/// form); an empty scan gives `Raw("")`; anything else is wrapped in
/// `Nested`.
pub open spec fn spec_inline(t: Seq<u8>) -> SpecTextBlock
    decreases t.len(), t.len() + 1,
{
    let (cur, past) = spans(t, 0, None, Seq::empty());
    if past.len() == 0 {
        match cur {
            Some(c) => SpecTextBlock { attribute: None, inner: SpecText::Raw(c) },
            None => SpecTextBlock { attribute: None, inner: SpecText::Raw(Seq::empty()) },
        }
    } else if past.len() == 1 && cur is None {
        past[0]
    } else {
        SpecTextBlock { attribute: None, inner: SpecText::Nested(finish_cur(cur, past)) }
    }
}

/// Substitution followed by inline parsing: the meaning of every piece of
/// inline content in a document.
pub open spec fn spec_all_in_one(t: Seq<u8>, vars: Seq<(Seq<u8>, Seq<u8>)>) -> SpecTextBlock {
    spec_inline(spec_subst(t, vars))
}

/// Inline parsing yields a canonical tree shape: content that reduces to
/// a single plain run is returned as `Raw` directly, never as a
/// one-element nesting. An unattributed span whose content is a nesting
/// therefore always holds at least two spans; only a formatting
/// attribute may wrap a single span.
pub proof fn lemma_inline_canonical(t: Seq<u8>)
    ensures
        spec_inline(t).attribute is None ==> (spec_inline(t).inner matches SpecText::Nested(
            spans,
        ) ==> spans.len() >= 2),
{
    let (cur, past) = spans(t, 0, None, Seq::empty());
    if past.len() == 0 {
    } else if past.len() == 1 && cur is None {
        lemma_spans_no_nested_shaping(t);
    } else {
        assert(finish_cur(cur, past).len() >= 2);
    }
}

/// The spans the machine collects are whole text blocks; the shaping
/// match in `spec_inline` returns the single collected span unchanged,
/// and that span is never itself a bare nesting of fewer than two spans,
/// because every span pushed is a raw run, a stamped span (whose nesting
/// is a one-element wrap under an attribute), or a link.
proof fn lemma_spans_no_nested_shaping(t: Seq<u8>)
    ensures
        forall|i: int|
            0 <= i < spans(t, 0, None, Seq::empty()).1.len() ==> !((#[trigger] spans(
                t,
                0,
                None,
                Seq::empty(),
            ).1[i]).attribute is None && spans(t, 0, None, Seq::empty()).1[i].inner is Nested),
{
    lemma_spans_shape(t, 0, None, Seq::empty());
}

/// No span that the machine appends is an unattributed nesting: raw runs
/// and links carry no attribute but are not nestings, and stamped spans
/// always carry their attribute.
proof fn lemma_spans_shape(t: Seq<u8>, i: int, cur: Option<Seq<u8>>, past: Seq<SpecTextBlock>)
    requires
        forall|k: int|
            0 <= k < past.len() ==> !((#[trigger] past[k]).attribute is None
                && past[k].inner is Nested),
    ensures
        forall|k: int|
            0 <= k < spans(t, i, cur, past).1.len() ==> !((#[trigger] spans(
                t,
                i,
                cur,
                past,
            ).1[k]).attribute is None && spans(t, i, cur, past).1[k].inner is Nested),
    decreases t.len(), t.len() - i,
{
    if i < 0 || i >= t.len() {
    } else if escape_at(t, i) is Some {
        let (emitted, i2) = escape_at(t, i)->0;
        lemma_spans_shape(t, i2, app_cur(cur, emitted), past);
    } else if t[i] == 42 || t[i] == 96 {
        let c = t[i];
        let (body, end) = span_scan(t, c, i + 1, Seq::empty());
        let i2 = if end + 1 <= t.len() {
            end + 1
        } else {
            t.len() as int
        };
        let inner = if c == 42 {
            if body.len() < t.len() {
                spec_inline(body)
            } else {
                SpecTextBlock { attribute: None, inner: SpecText::Raw(body) }
            }
        } else {
            SpecTextBlock { attribute: None, inner: SpecText::Raw(body) }
        };
        let attr = if c == 42 {
            TextAttr::Bold
        } else {
            TextAttr::Raw
        };
        let block = stamp(inner, attr);
        if i < i2 <= t.len() {
            lemma_spans_shape(t, i2, None, finish_cur(cur, past).push(block));
        }
    } else if i + 5 <= t.len() && t.subrange(i, i + 5) == link_prefix() {
        let ti = target_end(t, i + 5);
        let target = t.subrange(i + 5, ti);
        if ti < t.len() && t[ti] == 91 {
            let (ltxt, j) = ltext_scan(t, ti + 1, Seq::empty());
            if j < t.len() {
                let inner = if ltxt.len() < t.len() {
                    spec_inline(ltxt)
                } else {
                    SpecTextBlock { attribute: None, inner: SpecText::Raw(ltxt) }
                };
                let block = SpecTextBlock {
                    attribute: None,
                    inner: SpecText::Link(target, Some(Box::new(inner))),
                };
                if i < j + 1 <= t.len() {
                    lemma_spans_shape(t, j + 1, None, finish_cur(cur, past).push(block));
                }
            } else {
                let block = SpecTextBlock { attribute: None, inner: SpecText::Link(target, None) };
                if i < ti <= t.len() {
                    lemma_spans_shape(t, ti, None, finish_cur(cur, past).push(block));
                }
            }
        } else {
            let block = SpecTextBlock { attribute: None, inner: SpecText::Link(target, None) };
            if i < ti <= t.len() {
                lemma_spans_shape(t, ti, None, finish_cur(cur, past).push(block));
            }
        }
    } else {
        lemma_spans_shape(t, i + 1, app_cur(cur, seq![t[i]]), past);
    }
}

// ---------------------------------------------------------------------------
// Executable parser.
// ---------------------------------------------------------------------------

pub(crate) fn is_name_byte_exec(b: u8) -> (r: bool)
    ensures
        r == is_name_byte(b),
{
    (97 <= b && b <= 122) || (65 <= b && b <= 90) || b == 95
}

/// Looks up the first binding for `name` and returns a copy of its value.
fn find_binding_exec(vars: &Vec<(Vec<u8>, Vec<u8>)>, name: &[u8]) -> (r: Option<Vec<u8>>)
    ensures
        match r {
            Some(v) => find_binding(model_vars(vars@), name@) == Some(v@),
            None => find_binding(model_vars(vars@), name@) is None,
        },
{
    proof {
        crate::model::lemma_model_vars_props(vars@);
    }
    let ghost vm = model_vars(vars@);
    proof {
        assert(vm.skip(0) =~= vm);
    }
    let mut k: usize = 0;
    while k < vars.len()
        invariant
            0 <= k <= vars@.len(),
            vm == model_vars(vars@),
            vm.len() == vars@.len(),
            forall|i: int| 0 <= i < vars@.len() ==> vm[i] == (#[trigger] vars@[i].0@, vars@[i].1@),
            find_binding(vm, name@) == find_binding(vm.skip(k as int), name@),
        decreases vars@.len() - k,
    {
        if crate::bytes::bytes_eq(vars[k].0.as_slice(), name) {
            proof {
                assert(vm.skip(k as int)[0] == vm[k as int]);
            }
            return Some(crate::bytes::to_vec(vars[k].1.as_slice()));
        }
        proof {
            assert(vm.skip(k as int)[0] == vm[k as int]);
            assert(vm.skip(k as int).drop_first() =~= vm.skip(k as int + 1));
        }
        k = k + 1;
    }
    proof {
        assert(vm.skip(k as int).len() == 0);
    }
    None
}

/// One substitution pass over `t`: the rewritten bytes and whether any
/// replacement happened.
fn subst_pass_exec(t: &[u8], vars: &Vec<(Vec<u8>, Vec<u8>)>) -> (r: (Vec<u8>, bool))
    ensures
        (r.0@, r.1) == subst_pass(t@, model_vars(vars@), 0, Seq::<u8>::empty(), false),
{
    let ghost vm = model_vars(vars@);
    let mut out: Vec<u8> = Vec::new();
    let mut did = false;
    let mut i: usize = 0;
    while i < t.len()
        invariant
            0 <= i <= t@.len(),
            vm == model_vars(vars@),
            subst_pass(t@, vm, i as int, out@, did) == subst_pass(
                t@,
                vm,
                0,
                Seq::<u8>::empty(),
                false,
            ),
        decreases t@.len() - i,
    {
        if i + 1 < t.len() && t[i] == 92 && (t[i + 1] == 92 || t[i + 1] == 123) {
            let ghost out0 = out@;
            out.push(t[i]);
            out.push(t[i + 1]);
            proof {
                assert(out@ =~= out0 + t@.subrange(i as int, i + 2));
            }
            i = i + 2;
        } else if t[i] == 123 {
            // scan a possible {name}
            let mut j = i + 1;
            while j < t.len() && is_name_byte_exec(t[j])
                invariant
                    i + 1 <= j <= t@.len(),
                    name_end(t@, j as int) == name_end(t@, i + 1),
                decreases t@.len() - j,
            {
                j = j + 1;
            }
            assert(name_end(t@, j as int) == j);
            let is_var = j < t.len() && t[j] == 125 && j > i + 1;
            let mut replaced = false;
            if is_var {
                let name = crate::bytes::range_vec(t, i + 1, j);
                match find_binding_exec(vars, name.as_slice()) {
                    Some(sub) => {
                        let ghost out0 = out@;
                        crate::bytes::push_range(&mut out, sub.as_slice(), 0, sub.len());
                        proof {
                            assert(out@ =~= out0 + sub@);
                        }
                        did = true;
                        i = j + 1;
                        replaced = true;
                    },
                    None => {},
                }
            }
            if !replaced {
                out.push(t[i]);
                i = i + 1;
            }
        } else {
            out.push(t[i]);
            i = i + 1;
        }
    }
    (out, did)
}

/// The inline text parser: a cursor into the substituted bytes, the
/// buffered raw run, and the finished spans.
pub struct TextParser<'a> {
    pub text: &'a [u8],
    pub i: usize,
    pub current: Option<Vec<u8>>,
    pub past: Vec<TextBlock>,
}

impl<'a> TextParser<'a> {
    pub open spec fn t(&self) -> Seq<u8> {
        self.text@
    }

    pub open spec fn cur_m(&self) -> Option<Seq<u8>> {
        match self.current {
            Some(v) => Some(v@),
            None => None,
        }
    }

    pub open spec fn past_m(&self) -> Seq<SpecTextBlock> {
        model_text_blocks(self.past@)
    }

    /// The value the span machine will produce from the current state.
    pub open spec fn cont(&self) -> (Option<Seq<u8>>, Seq<SpecTextBlock>) {
        spans(self.t(), self.i as int, self.cur_m(), self.past_m())
    }

    /// Expands variables in `text` and inline-parses the result.
    pub fn all_in_one(text: &[u8], vars: &Vec<(Vec<u8>, Vec<u8>)>) -> (r: TextBlock)
        ensures
            r.model() == spec_all_in_one(text@, model_vars(vars@)),
    {
        let substituted = TextParser::subst(text, vars);
        TextParser::parse(substituted.as_slice())
    }

    /// Expands `{name}` references in `text` against `vars`, re-scanning
    /// until a pass changes nothing. The re-scan is bounded by one pass
    /// per binding, which is enough for every acyclic definition chain
    /// and keeps cyclic definitions from looping forever.
    pub fn subst(text: &[u8], vars: &Vec<(Vec<u8>, Vec<u8>)>) -> (r: Vec<u8>)
        ensures
            r@ == spec_subst(text@, model_vars(vars@)),
    {
        let ghost vm = model_vars(vars@);
        proof {
            crate::model::lemma_model_vars_props(vars@);
        }
        let mut cur = crate::bytes::to_vec(text);
        let mut fuel = vars.len();
        loop
            invariant
                vm == model_vars(vars@),
                vm.len() == vars@.len(),
                subst_fix(cur@, vm, fuel as nat) == subst_fix(text@, vm, vars@.len() as nat),
            decreases fuel,
        {
            let (next, did) = subst_pass_exec(cur.as_slice(), vars);
            if !did || fuel == 0 {
                return next;
            }
            fuel = fuel - 1;
            cur = next;
        }
    }

    /// Inline-parses `text` into a span tree.
    pub fn parse(text: &[u8]) -> (r: TextBlock)
        ensures
            r.model() == spec_inline(text@),
        decreases text@.len(), 3nat,
    {
        let mut p = TextParser { text, i: 0, current: None, past: Vec::new() };
        proof {
            assert(p.past_m() =~= Seq::<SpecTextBlock>::empty());
        }
        while p.i < p.text.len()
            invariant
                p.text@ == text@,
                p.i <= text@.len(),
                p.cont() == spans(text@, 0, None::<Seq<u8>>, Seq::<SpecTextBlock>::empty()),
            decreases text@.len() - p.i,
        {
            let mut stepped = p.escape_sequence();
            if !stepped {
                stepped = p.bold();
            }
            if !stepped {
                stepped = p.raw();
            }
            if !stepped {
                stepped = p.link();
            }
            if !stepped {
                let ghost i0 = p.i as int;
                let ghost cur0 = p.cur_m();
                let txt = p.text;
                p.append_from(txt, p.i, p.i + 1);
                proof {
                    assert(txt@.subrange(i0, i0 + 1) =~= seq![txt@[i0]]);
                }
                p.i = p.i + 1;
            }
        }
        // the input is consumed; shape the collected spans
        let ghost fcur = p.cur_m();
        let ghost fpast = p.past_m();
        proof {
            lemma_model_text_blocks_props(p.past@);
            assert(spans(text@, 0, None::<Seq<u8>>, Seq::<SpecTextBlock>::empty()) == (
                fcur,
                fpast,
            ));
        }
        if p.past.len() == 0 {
            match p.current.take() {
                Some(c) => TextBlock { attribute: None, inner: Text::Raw(c) },
                None => TextBlock { attribute: None, inner: Text::Raw(Vec::new()) },
            }
        } else if p.past.len() == 1 && p.current.is_none() {
            let r = p.past.pop().unwrap();
            proof {
                assert(r.model() == fpast[0]);
            }
            r
        } else {
            p.finish_raw();
            TextBlock { attribute: None, inner: Text::Nested(p.past) }
        }
    }

    /// Consumes an escape sequence at the cursor, if one starts there.
    fn escape_sequence(&mut self) -> (r: bool)
        requires
            old(self).i <= old(self).t().len(),
        ensures
            final(self).text == old(self).text,
            final(self).i <= final(self).t().len(),
            r == (escape_at(old(self).t(), old(self).i as int) is Some),
            r ==> old(self).i < final(self).i && final(self).cont() == old(self).cont(),
            !r ==> *final(self) == *old(self),
    {
        let t = self.text;
        let i = self.i;
        let n = t.len();
        if n - i < 2 {
            return false;
        }
        if t[i] != 92 {
            return false;
        }
        let c = t[i + 1];
        if c == 92 || c == 96 || c == 42 || c == 123 || c == 93 || c == 124 {
            self.append_from(t, i + 1, i + 2);
            self.i = i + 2;
            proof {
                assert(t@.subrange(i as int, i + 2).len() == 2);
                assert(t@.subrange(i + 1, i + 2) =~= seq![c]);
            }
            true
        } else if n - i >= 6 && t[i + 1] == 108 && t[i + 2] == 105 && t[i + 3] == 110 && t[i + 4]
            == 107 && t[i + 5] == 58 {
            self.append_from(t, i + 1, i + 6);
            self.i = i + 6;
            proof {
                assert(t@.subrange(i + 1, i + 6) =~= link_prefix());
            }
            true
        } else {
            proof {
                assert(i + 6 <= t@.len() ==> t@.subrange(i + 1, i + 6) != link_prefix()) by {
                    if i + 6 <= t@.len() {
                        assert(t@.subrange(i + 1, i + 6)[0] == t@[i as int + 1]);
                        assert(link_prefix()[0] == 108);
                        assert(t@.subrange(i + 1, i + 6)[1] == t@[i as int + 2]);
                        assert(t@.subrange(i + 1, i + 6)[2] == t@[i as int + 3]);
                        assert(t@.subrange(i + 1, i + 6)[3] == t@[i as int + 4]);
                        assert(t@.subrange(i + 1, i + 6)[4] == t@[i as int + 5]);
                    }
                }
            }
            false
        }
    }

    /// Consumes a bold span at the cursor, if one starts there.
    fn bold(&mut self) -> (r: bool)
        requires
            old(self).i < old(self).t().len(),
            escape_at(old(self).t(), old(self).i as int) is None,
        ensures
            final(self).text == old(self).text,
            final(self).i <= final(self).t().len(),
            r == (old(self).t()[old(self).i as int] == 42),
            r ==> old(self).i < final(self).i && final(self).cont() == old(self).cont(),
            !r ==> *final(self) == *old(self),
        decreases old(self).t().len(), 2nat,
    {
        if self.text[self.i] != 42 {
            return false;
        }
        self.special(42, TextAttr::Bold, true);
        true
    }

    /// Consumes a verbatim span at the cursor, if one starts there.
    fn raw(&mut self) -> (r: bool)
        requires
            old(self).i < old(self).t().len(),
            escape_at(old(self).t(), old(self).i as int) is None,
        ensures
            final(self).text == old(self).text,
            final(self).i <= final(self).t().len(),
            r == (old(self).t()[old(self).i as int] == 96),
            r ==> old(self).i < final(self).i && final(self).cont() == old(self).cont(),
            !r ==> *final(self) == *old(self),
        decreases old(self).t().len(), 2nat,
    {
        if self.text[self.i] != 96 {
            return false;
        }
        self.special(96, TextAttr::Raw, false);
        true
    }

    /// Consumes a span delimited by `c`: collects the interior up to the
    /// next unescaped `c` (or the end of input), parses it recursively
    /// for a bold span, and stamps the attribute on the result.
    fn special(&mut self, c: u8, attr: TextAttr, cont: bool)
        requires
            old(self).i < old(self).t().len(),
            old(self).t()[old(self).i as int] == c,
            escape_at(old(self).t(), old(self).i as int) is None,
            c == 42 || c == 96,
            cont == (c == 42),
            attr == (if c == 42 {
                TextAttr::Bold
            } else {
                TextAttr::Raw
            }),
        ensures
            final(self).text == old(self).text,
            old(self).i < final(self).i <= final(self).t().len(),
            final(self).cont() == old(self).cont(),
        decreases old(self).t().len(), 1nat,
    {
        let t = self.text;
        let i0 = self.i;
        let n = t.len();
        let mut body: Vec<u8> = Vec::new();
        let mut j = i0 + 1;
        while j < t.len()
            invariant_except_break
                i0 + 1 <= j,
                span_scan(t@, c, j as int, body@) == span_scan(
                    t@,
                    c,
                    i0 + 1,
                    Seq::<u8>::empty(),
                ),
            invariant
                j <= t@.len(),
                body@.len() <= j - (i0 + 1),
            ensures
                span_scan(t@, c, i0 + 1, Seq::<u8>::empty()) == (body@, j as int),
                i0 + 1 <= j <= t@.len(),
                body@.len() <= j - (i0 + 1),
            decreases t@.len() - j,
        {
            if t[j] == c {
                break ;
            }
            if t[j] == 92 && j + 1 < t.len() && (t[j + 1] == 92 || t[j + 1] == c) {
                body.push(t[j + 1]);
                j = j + 2;
            } else {
                body.push(t[j]);
                j = j + 1;
            }
        }
        self.i = if j < t.len() {
            j + 1
        } else {
            j
        };
        self.finish_raw();
        let inner: TextBlock = if cont {
            assert(body@.len() < t@.len());
            TextParser::parse(body.as_slice())
        } else {
            TextBlock { attribute: None, inner: Text::Raw(body) }
        };
        let block: TextBlock = if inner.attribute.is_none() {
            TextBlock { attribute: Some(attr), inner: inner.inner }
        } else {
            let mut nested: Vec<TextBlock> = Vec::new();
            nested.push(inner);
            proof {
                assert(nested@ =~= Seq::<TextBlock>::empty().push(inner));
                lemma_model_text_blocks_push(Seq::<TextBlock>::empty(), inner);
                assert(model_text_blocks(Seq::<TextBlock>::empty())
                    =~= Seq::<SpecTextBlock>::empty());
                assert(model_text_blocks(nested@) =~= seq![inner.model()]);
            }
            TextBlock { attribute: Some(attr), inner: Text::Nested(nested) }
        };
        let ghost past_before = self.past@;
        self.past.push(block);
        proof {
            lemma_model_text_blocks_push(past_before, block);
        }
    }

    /// Consumes a link at the cursor, if one starts there: a bare target
    /// up to a space or `[`, with optional bracketed link text when the
    /// bracket is closed before the end of input.
    fn link(&mut self) -> (r: bool)
        requires
            old(self).i < old(self).t().len(),
            escape_at(old(self).t(), old(self).i as int) is None,
            old(self).t()[old(self).i as int] != 42,
            old(self).t()[old(self).i as int] != 96,
        ensures
            final(self).text == old(self).text,
            final(self).i <= final(self).t().len(),
            r == (old(self).i + 5 <= old(self).t().len() && old(self).t().subrange(
                old(self).i as int,
                old(self).i + 5,
            ) == link_prefix()),
            r ==> old(self).i < final(self).i && final(self).cont() == old(self).cont(),
            !r ==> *final(self) == *old(self),
        decreases old(self).t().len(), 1nat,
    {
        let t = self.text;
        let i0 = self.i;
        let n = t.len();
        let matches_prefix = n - i0 >= 5 && t[i0] == 108 && t[i0 + 1] == 105 && t[i0 + 2] == 110
            && t[i0 + 3] == 107 && t[i0 + 4] == 58;
        proof {
            if i0 + 5 <= t@.len() {
                if matches_prefix {
                    assert(t@.subrange(i0 as int, i0 + 5) =~= link_prefix());
                } else {
                    assert(t@.subrange(i0 as int, i0 + 5)[0] == t@[i0 as int]);
                    assert(t@.subrange(i0 as int, i0 + 5)[1] == t@[i0 as int + 1]);
                    assert(t@.subrange(i0 as int, i0 + 5)[2] == t@[i0 as int + 2]);
                    assert(t@.subrange(i0 as int, i0 + 5)[3] == t@[i0 as int + 3]);
                    assert(t@.subrange(i0 as int, i0 + 5)[4] == t@[i0 as int + 4]);
                }
            }
        }
        if !matches_prefix {
            return false;
        }
        // the target runs to the first space or bracket
        let mut ti = i0 + 5;
        while ti < t.len() && t[ti] != 32 && t[ti] != 91
            invariant
                i0 + 5 <= ti <= t@.len(),
                target_end(t@, i0 + 5) == target_end(t@, ti as int),
            decreases t@.len() - ti,
        {
            ti = ti + 1;
        }
        assert(target_end(t@, ti as int) == ti);
        let target = crate::bytes::range_vec(t, i0 + 5, ti);
        if ti < t.len() && t[ti] == 91 {
            // scan bracketed link text
            let mut ltxt: Vec<u8> = Vec::new();
            let mut j = ti + 1;
            while j < t.len()
                invariant_except_break
                    ti + 1 <= j,
                    ltext_scan(t@, j as int, ltxt@) == ltext_scan(
                        t@,
                        ti + 1,
                        Seq::<u8>::empty(),
                    ),
                invariant
                    j <= t@.len(),
                    ltxt@.len() <= j - (ti + 1),
                ensures
                    ltext_scan(t@, ti + 1, Seq::<u8>::empty()) == (ltxt@, j as int),
                    ti + 1 <= j <= t@.len(),
                    ltxt@.len() <= j - (ti + 1),
                decreases t@.len() - j,
            {
                if j + 1 < t.len() && t[j] == 92 && (t[j + 1] == 92 || t[j + 1] == 93) {
                    ltxt.push(t[j + 1]);
                    j = j + 2;
                } else if t[j] == 93 {
                    break ;
                } else {
                    ltxt.push(t[j]);
                    j = j + 1;
                }
            }
            if j < t.len() {
                // closing bracket found
                assert(ltxt@.len() < t@.len());
                let text_block = TextParser::parse(ltxt.as_slice());
                self.finish_raw();
                let ghost past_before = self.past@;
                let block = TextBlock {
                    attribute: None,
                    inner: Text::Link(target, Some(Box::new(text_block))),
                };
                self.past.push(block);
                proof {
                    lemma_model_text_blocks_push(past_before, block);
                }
                self.i = j + 1;
                return true;
            }
            // no closing bracket: bare target only
            self.finish_raw();
            let ghost past_before = self.past@;
            let block = TextBlock { attribute: None, inner: Text::Link(target, None) };
            self.past.push(block);
            proof {
                lemma_model_text_blocks_push(past_before, block);
            }
            self.i = ti;
            return true;
        }
        self.finish_raw();
        let ghost past_before = self.past@;
        let block = TextBlock { attribute: None, inner: Text::Link(target, None) };
        self.past.push(block);
        proof {
            lemma_model_text_blocks_push(past_before, block);
        }
        self.i = ti;
        true
    }

    /// Appends `src[from..to]` to the buffered raw run, opening one if
    /// none is open.
    fn append_from(&mut self, src: &[u8], from: usize, to: usize)
        requires
            from <= to <= src@.len(),
        ensures
            final(self).text == old(self).text,
            final(self).i == old(self).i,
            final(self).past == old(self).past,
            final(self).cur_m() == app_cur(old(self).cur_m(), src@.subrange(
                from as int,
                to as int,
            )),
    {
        let mut c = match self.current.take() {
            Some(c) => c,
            None => Vec::new(),
        };
        let ghost c0 = c@;
        crate::bytes::push_range(&mut c, src, from, to);
        proof {
            if old(self).cur_m() is None {
                assert(c0 =~= Seq::<u8>::empty());
                assert(c0 + src@.subrange(from as int, to as int) =~= src@.subrange(
                    from as int,
                    to as int,
                ));
            }
        }
        self.current = Some(c);
    }

    /// Flushes the buffered raw run into the finished spans.
    fn finish_raw(&mut self)
        ensures
            final(self).text == old(self).text,
            final(self).i == old(self).i,
            final(self).cur_m() is None,
            final(self).past_m() == finish_cur(old(self).cur_m(), old(self).past_m()),
    {
        match self.current.take() {
            Some(c) => {
                let ghost past_before = self.past@;
                let block = TextBlock { attribute: None, inner: Text::Raw(c) };
                self.past.push(block);
                proof {
                    lemma_model_text_blocks_push(past_before, block);
                }
            },
            None => {},
        }
    }
}

} // verus!
