//! Rendering the document tree as HTML text fragments: the inline-level
//! helpers that turn headers and text spans into tagged bytes. Escaping
//! of `&`, `<` and `>` happens only inside plain runs; link targets and
//! tags are emitted as they stand, as the output format expects.
//!
//! Every function appends to a byte buffer exactly the bytes given by
//! its specification function over the value's model.

use vstd::prelude::*;

use crate::model::{
    lemma_model_text_blocks_props, model_text_blocks, SpecText, SpecTextBlock, Text, TextAttr,
    TextBlock,
};

verus! {

/// The bytes of `&amp;`.
pub open spec fn amp_entity() -> Seq<u8> {
    seq![38u8, 97u8, 109u8, 112u8, 59u8]
}

/// The bytes of `&lt;`.
pub open spec fn lt_entity() -> Seq<u8> {
    seq![38u8, 108u8, 116u8, 59u8]
}

/// The bytes of `&gt;`.
pub open spec fn gt_entity() -> Seq<u8> {
    seq![38u8, 103u8, 116u8, 59u8]
}

/// The bytes of `<a href="`.
pub open spec fn a_open() -> Seq<u8> {
    seq![60u8, 97u8, 32u8, 104u8, 114u8, 101u8, 102u8, 61u8, 34u8]
}

/// The bytes of `</a>`.
pub open spec fn a_close() -> Seq<u8> {
    seq![60u8, 47u8, 97u8, 62u8]
}

/// The bytes of `">`.
pub open spec fn quote_gt() -> Seq<u8> {
    seq![34u8, 62u8]
}

/// The bytes of `man:`.
pub open spec fn man_scheme() -> Seq<u8> {
    seq![109u8, 97u8, 110u8, 58u8]
}

/// The bytes of `http://man7.org/linux/man-pages/man`.
pub open spec fn man_pages_url() -> Seq<u8> {
    seq![104u8, 116u8, 116u8, 112u8, 58u8, 47u8, 47u8, 109u8, 97u8, 110u8, 55u8, 46u8, 111u8, 114u8, 103u8, 47u8, 108u8, 105u8, 110u8, 117u8, 120u8, 47u8, 109u8, 97u8, 110u8, 45u8, 112u8, 97u8, 103u8, 101u8, 115u8, 47u8, 109u8, 97u8, 110u8]
}

/// The bytes of `lrs`.
pub open spec fn lrs_prefix() -> Seq<u8> {
    seq![108u8, 114u8, 115u8]
}

/// The bytes of `./`.
pub open spec fn dot_slash() -> Seq<u8> {
    seq![46u8, 47u8]
}

/// The bytes of `.html">`.
pub open spec fn html_suffix() -> Seq<u8> {
    seq![46u8, 104u8, 116u8, 109u8, 108u8, 34u8, 62u8]
}

/// The bytes of `<h`.
pub open spec fn h_open() -> Seq<u8> {
    seq![60u8, 104u8]
}

/// The bytes of `</h`.
pub open spec fn h_close() -> Seq<u8> {
    seq![60u8, 47u8, 104u8]
}

/// The bytes of `code`.
pub open spec fn code_tag() -> Seq<u8> {
    seq![99u8, 111u8, 100u8, 101u8]
}

/// The bytes of `b`.
pub open spec fn b_tag() -> Seq<u8> {
    seq![98u8]
}

/// The bytes of `<p class="info_head">This section is informative.</p>`.
pub open spec fn info_note() -> Seq<u8> {
    seq![60u8, 112u8, 32u8, 99u8, 108u8, 97u8, 115u8, 115u8, 61u8, 34u8, 105u8, 110u8, 102u8, 111u8, 95u8, 104u8, 101u8, 97u8, 100u8, 34u8, 62u8, 84u8, 104u8, 105u8, 115u8, 32u8, 115u8, 101u8, 99u8, 116u8, 105u8, 111u8, 110u8, 32u8, 105u8, 115u8, 32u8, 105u8, 110u8, 102u8, 111u8, 114u8, 109u8, 97u8, 116u8, 105u8, 118u8, 101u8, 46u8, 60u8, 47u8, 112u8, 62u8]
}

/// One escaped byte of raw text.
pub open spec fn esc_byte(b: u8) -> Seq<u8> {
    if b == 38 {
        amp_entity()
    } else if b == 60 {
        lt_entity()
    } else if b == 62 {
        gt_entity()
    } else {
        seq![b]
    }
}

/// Raw text with `&`, `<` and `>` escaped.
pub open spec fn sp_escaped(t: Seq<u8>) -> Seq<u8>
    decreases t,
{
    if t.len() == 0 {
        Seq::empty()
    } else {
        sp_escaped(t.drop_last()) + esc_byte(t.last())
    }
}

/// The decimal digits of `n`.
pub open spec fn dec_rep(n: nat) -> Seq<u8>
    decreases n,
{
    if n < 10 {
        seq![(48 + n) as u8]
    } else {
        dec_rep(n / 10).push((48 + n % 10) as u8)
    }
}

/// The index of the first `(` in `t`, or its length.
pub open spec fn paren_pos(t: Seq<u8>, i: int) -> int
    decreases t.len() - i,
{
    if i < 0 || i >= t.len() {
        i
    } else if t[i] == 40 {
        i
    } else {
        paren_pos(t, i + 1)
    }
}

/// The rendering of a link: `man:` targets become links into the online
/// manual pages, `lrs` targets become relative links, anything else is
/// used as it stands; the explicit link text is rendered when present,
/// else the bare target is written.
pub open spec fn sp_render_link(target: Seq<u8>, label: Option<Box<SpecTextBlock>>) -> Seq<u8>
    decreases label,
{
    let body = match label {
        Some(b) => sp_render_text_block(*b),
        None => target,
    };
    if target.len() >= 4 && target.subrange(0, 4) == man_scheme() && paren_pos(target, 0)
        < target.len() {
        let p = paren_pos(target, 0);
        let section = if p + 1 <= target.len() - 1 {
            target.subrange(p + 1, target.len() - 1)
        } else {
            Seq::empty()
        };
        let page = target.subrange(4, p);
        let body2 = match label {
            Some(b) => sp_render_text_block(*b),
            None => target.subrange(4, target.len() as int),
        };
        a_open() + man_pages_url() + section + seq![47u8] + page + seq![46u8] + section
            + html_suffix() + body2 + a_close()
    } else if target.len() >= 3 && target.subrange(0, 3) == lrs_prefix() {
        a_open() + dot_slash() + target + html_suffix() + body + a_close()
    } else {
        a_open() + target + quote_gt() + body + a_close()
    }
}

/// The rendering of inline content.
pub open spec fn sp_render_text(t: SpecText) -> Seq<u8>
    decreases t,
{
    match t {
        SpecText::Raw(s) => sp_escaped(s),
        SpecText::Nested(blocks) => sp_render_tbs(blocks),
        SpecText::Link(target, label) => sp_render_link(target, label),
    }
}

/// The renderings of a span list, in order.
pub open spec fn sp_render_tbs(s: Seq<SpecTextBlock>) -> Seq<u8>
    decreases s,
{
    if s.len() == 0 {
        Seq::empty()
    } else {
        sp_render_text_block(s.first()) + sp_render_tbs(s.drop_first())
    }
}

/// The rendering of one span: its content wrapped in `<code>` or `<b>`
/// when a formatting attribute is present.
pub open spec fn sp_render_text_block(b: SpecTextBlock) -> Seq<u8>
    decreases b,
{
    let tag: Seq<u8> = match b.attribute {
        Some(TextAttr::Raw) => code_tag(),
        Some(TextAttr::Bold) => b_tag(),
        None => Seq::empty(),
    };
    if tag.len() > 0 {
        seq![60u8] + tag + seq![62u8] + sp_render_text(b.inner) + seq![60u8, 47u8] + tag + seq![
            62u8,
        ]
    } else {
        sp_render_text(b.inner)
    }
}

/// The rendering of a section header: the title inside `<hN>` tags with
/// N one more than the depth, followed by a note when the section is
/// informative.
pub open spec fn sp_render_header(depth: nat, b: SpecTextBlock, info: bool) -> Seq<u8> {
    h_open() + dec_rep(depth + 1) + seq![62u8] + sp_render_text_block(b) + h_close() + dec_rep(
        depth + 1,
    ) + seq![62u8] + (if info {
        info_note()
    } else {
        Seq::empty()
    })
}

/// Whether a span is exactly the plain run `val`.
pub open spec fn sp_text_block_is(b: SpecTextBlock, val: Seq<u8>) -> bool {
    match b.inner {
        SpecText::Raw(s) => s == val,
        _ => false,
    }
}

/// Appends `txt` with `&`, `<` and `>` escaped.
pub fn raw(out: &mut Vec<u8>, txt: &[u8])
    ensures
        final(out)@ == old(out)@ + sp_escaped(txt@),
{
    let mut i: usize = 0;
    proof {
        assert(txt@.subrange(0, 0) =~= Seq::<u8>::empty());
        assert(out@ + sp_escaped(txt@.subrange(0, 0)) =~= out@);
    }
    while i < txt.len()
        invariant
            0 <= i <= txt@.len(),
            out@ == old(out)@ + sp_escaped(txt@.subrange(0, i as int)),
        decreases txt@.len() - i,
    {
        let b = txt[i];
        if b == 38 {
            push_amp_entity(out);
        } else if b == 60 {
            push_lt_entity(out);
        } else if b == 62 {
            push_gt_entity(out);
        } else {
            out.push(b);
            proof {
                assert(esc_byte(b) =~= seq![b]);
            }
        }
        proof {
            assert(txt@.subrange(0, i + 1).drop_last() =~= txt@.subrange(0, i as int));
            assert(txt@.subrange(0, i + 1).last() == txt@[i as int]);
            assert(out@ =~= old(out)@ + sp_escaped(txt@.subrange(0, i + 1)));
        }
        i = i + 1;
    }
    proof {
        assert(txt@.subrange(0, txt@.len() as int) =~= txt@);
    }
}

/// Appends the decimal digits of `n`.
fn push_number(out: &mut Vec<u8>, n: usize)
    ensures
        final(out)@ == old(out)@ + dec_rep(n as nat),
    decreases n,
{
    if n < 10 {
        out.push(48 + (n as u8));
        proof {
            assert(out@ =~= old(out)@ + dec_rep(n as nat));
        }
    } else {
        push_number(out, n / 10);
        out.push(48 + ((n % 10) as u8));
        proof {
            assert(out@ =~= old(out)@ + dec_rep(n as nat));
        }
    }
}

/// Appends the rendering of a section header.
pub fn section_header(out: &mut Vec<u8>, depth: usize, block: &TextBlock, info: bool)
    requires
        depth < usize::MAX,
    ensures
        final(out)@ == old(out)@ + sp_render_header(depth as nat, block.model(), info),
{
    push_h_open(out);
    push_number(out, depth + 1);
    out.push(62);
    text_block(out, block);
    push_h_close(out);
    push_number(out, depth + 1);
    out.push(62);
    if info {
        push_info_note(out);
    }
    proof {
        assert(final(out)@ =~= old(out)@ + sp_render_header(depth as nat, block.model(), info));
    }
}

/// Appends the rendering of one span.
pub fn text_block(out: &mut Vec<u8>, block: &TextBlock)
    ensures
        final(out)@ == old(out)@ + sp_render_text_block(block.model()),
    decreases block, 1int,
{
    match &block.attribute {
        Some(TextAttr::Raw) => {
            out.push(60);
            push_code_tag(out);
            out.push(62);
            text(out, &block.inner);
            out.push(60);
            out.push(47);
            push_code_tag(out);
            out.push(62);
            proof {
                assert(final(out)@ =~= old(out)@ + sp_render_text_block(block.model()));
            }
        },
        Some(TextAttr::Bold) => {
            out.push(60);
            push_b_tag(out);
            out.push(62);
            text(out, &block.inner);
            out.push(60);
            out.push(47);
            push_b_tag(out);
            out.push(62);
            proof {
                assert(final(out)@ =~= old(out)@ + sp_render_text_block(block.model()));
            }
        },
        None => {
            text(out, &block.inner);
        },
    }
}

/// Appends the rendering of inline content.
pub fn text(out: &mut Vec<u8>, txt: &Text)
    ensures
        final(out)@ == old(out)@ + sp_render_text(txt.model()),
    decreases txt, 0int,
{
    match txt {
        Text::Raw(s) => {
            raw(out, s.as_slice());
        },
        Text::Nested(blocks) => {
            render_tbs(out, blocks, 0);
            proof {
                assert(model_text_blocks(blocks@).skip(0) =~= model_text_blocks(blocks@));
            }
        },
        Text::Link(target, label) => {
            link(out, target, label);
        },
    }
}

/// Appends the renderings of the spans from position `i` on.
fn render_tbs(out: &mut Vec<u8>, blocks: &Vec<TextBlock>, i: usize)
    requires
        i <= blocks@.len(),
    ensures
        final(out)@ == old(out)@ + sp_render_tbs(model_text_blocks(blocks@).skip(i as int)),
    decreases blocks@, blocks@.len() - i,
{
    proof {
        lemma_model_text_blocks_props(blocks@);
    }
    let ghost bm = model_text_blocks(blocks@);
    if i < blocks.len() {
        proof {
            assert(decreases_to!(blocks@ => blocks@[i as int]));
        }
        text_block(out, &blocks[i]);
        render_tbs(out, blocks, i + 1);
        proof {
            assert(bm.skip(i as int).drop_first() =~= bm.skip(i as int + 1));
            assert(bm.skip(i as int).first() == bm[i as int]);
            assert(out@ =~= old(out)@ + sp_render_tbs(bm.skip(i as int)));
        }
    } else {
        proof {
            assert(bm.skip(i as int) =~= Seq::<SpecTextBlock>::empty());
        }
    }
}

/// Appends the rendering of a link.
#[verifier::rlimit(100)]
pub fn link(out: &mut Vec<u8>, target: &Vec<u8>, label: &Option<Box<TextBlock>>)
    ensures
        final(out)@ == old(out)@ + sp_render_link(
            target@,
            match label {
                Some(b) => Some(Box::new((**b).model())),
                None => None,
            },
        ),
    decreases label, 0int,
{
    push_a_open(out);
    let is_man = crate::bytes::starts_with(target.as_slice(), &[109, 97, 110, 58]);
    proof {
        if is_man {
            assert(target@.subrange(0, 4) =~= man_scheme());
        } else if target@.len() >= 4 {
            assert(man_scheme() =~= seq![109u8, 97u8, 110u8, 58u8]);
        }
    }
    let mut p: usize = 0;
    while p < target.len() && target[p] != 40
        invariant
            0 <= p <= target@.len(),
            paren_pos(target@, p as int) == paren_pos(target@, 0),
        decreases target@.len() - p,
    {
        p = p + 1;
    }
    assert(paren_pos(target@, 0) == p);
    if is_man && p < target.len() {
        push_man_pages_url(out);
        let hi = target.len() - 1;
        let section_from = if p + 1 <= hi {
            p + 1
        } else {
            hi
        };
        let ghost section: Seq<u8> = if p + 1 <= target@.len() - 1 {
            target@.subrange(p + 1, target@.len() - 1)
        } else {
            Seq::<u8>::empty()
        };
        crate::bytes::push_range(out, target.as_slice(), section_from, hi);
        proof {
            if p + 1 > target@.len() - 1 {
                assert(target@.subrange(section_from as int, hi as int) =~= section);
            }
        }
        out.push(47);
        crate::bytes::push_range(out, target.as_slice(), 4, p);
        out.push(46);
        crate::bytes::push_range(out, target.as_slice(), section_from, hi);
        proof {
            if p + 1 > target@.len() - 1 {
                assert(target@.subrange(section_from as int, hi as int) =~= section);
            }
        }
        push_html_suffix(out);
        match label {
            Some(b) => {
                text_block(out, b);
            },
            None => {
                crate::bytes::push_range(out, target.as_slice(), 4, target.len());
            },
        }
        push_a_close(out);
        proof {
            assert(final(out)@ =~= old(out)@ + sp_render_link(
                target@,
                match label {
                    Some(b) => Some(Box::new((**b).model())),
                    None => None,
                },
            ));
        }
        return ;
    }
    let is_lrs = crate::bytes::starts_with(target.as_slice(), &[108, 114, 115]);
    proof {
        if is_lrs {
            assert(target@.subrange(0, 3) =~= lrs_prefix());
        } else if target@.len() >= 3 {
            assert(lrs_prefix() =~= seq![108u8, 114u8, 115u8]);
        }
    }
    if is_lrs {
        push_dot_slash(out);
        crate::bytes::push_range(out, target.as_slice(), 0, target.len());
        push_html_suffix(out);
    } else {
        crate::bytes::push_range(out, target.as_slice(), 0, target.len());
        out.push(34);
        out.push(62);
    }
    match label {
        Some(b) => {
            text_block(out, b);
        },
        None => {
            crate::bytes::push_range(out, target.as_slice(), 0, target.len());
        },
    }
    push_a_close(out);
    proof {
        assert(target@.subrange(0, target@.len() as int) =~= target@);
        assert(final(out)@ =~= old(out)@ + sp_render_link(
            target@,
            match label {
                Some(b) => Some(Box::new((**b).model())),
                None => None,
            },
        ));
    }
}

/// Whether `block` is exactly the plain run `val`.
pub fn text_block_is(block: &TextBlock, val: &[u8]) -> (r: bool)
    ensures
        r == sp_text_block_is(block.model(), val@),
{
    match &block.inner {
        Text::Raw(s) => crate::bytes::bytes_eq(s.as_slice(), val),
        _ => false,
    }
}

fn push_amp_entity(out: &mut Vec<u8>)
    ensures
        final(out)@ == old(out)@ + amp_entity(),
{
    let lit: [u8; 5] = [38, 97, 109, 112, 59];
    proof {
        assert(lit@ =~= amp_entity());
    }
    crate::bytes::push_range(out, lit.as_slice(), 0, 5);
}

fn push_lt_entity(out: &mut Vec<u8>)
    ensures
        final(out)@ == old(out)@ + lt_entity(),
{
    let lit: [u8; 4] = [38, 108, 116, 59];
    proof {
        assert(lit@ =~= lt_entity());
    }
    crate::bytes::push_range(out, lit.as_slice(), 0, 4);
}

fn push_gt_entity(out: &mut Vec<u8>)
    ensures
        final(out)@ == old(out)@ + gt_entity(),
{
    let lit: [u8; 4] = [38, 103, 116, 59];
    proof {
        assert(lit@ =~= gt_entity());
    }
    crate::bytes::push_range(out, lit.as_slice(), 0, 4);
}

fn push_a_open(out: &mut Vec<u8>)
    ensures
        final(out)@ == old(out)@ + a_open(),
{
    let lit: [u8; 9] = [60, 97, 32, 104, 114, 101, 102, 61, 34];
    proof {
        assert(lit@ =~= a_open());
    }
    crate::bytes::push_range(out, lit.as_slice(), 0, 9);
}

fn push_a_close(out: &mut Vec<u8>)
    ensures
        final(out)@ == old(out)@ + a_close(),
{
    let lit: [u8; 4] = [60, 47, 97, 62];
    proof {
        assert(lit@ =~= a_close());
    }
    crate::bytes::push_range(out, lit.as_slice(), 0, 4);
}

fn push_quote_gt(out: &mut Vec<u8>)
    ensures
        final(out)@ == old(out)@ + quote_gt(),
{
    let lit: [u8; 2] = [34, 62];
    proof {
        assert(lit@ =~= quote_gt());
    }
    crate::bytes::push_range(out, lit.as_slice(), 0, 2);
}

fn push_man_scheme(out: &mut Vec<u8>)
    ensures
        final(out)@ == old(out)@ + man_scheme(),
{
    let lit: [u8; 4] = [109, 97, 110, 58];
    proof {
        assert(lit@ =~= man_scheme());
    }
    crate::bytes::push_range(out, lit.as_slice(), 0, 4);
}

fn push_man_pages_url(out: &mut Vec<u8>)
    ensures
        final(out)@ == old(out)@ + man_pages_url(),
{
    let lit: [u8; 35] = [104, 116, 116, 112, 58, 47, 47, 109, 97, 110, 55, 46, 111, 114, 103, 47, 108, 105, 110, 117, 120, 47, 109, 97, 110, 45, 112, 97, 103, 101, 115, 47, 109, 97, 110];
    proof {
        assert(lit@ =~= man_pages_url());
    }
    crate::bytes::push_range(out, lit.as_slice(), 0, 35);
}

fn push_lrs_prefix(out: &mut Vec<u8>)
    ensures
        final(out)@ == old(out)@ + lrs_prefix(),
{
    let lit: [u8; 3] = [108, 114, 115];
    proof {
        assert(lit@ =~= lrs_prefix());
    }
    crate::bytes::push_range(out, lit.as_slice(), 0, 3);
}

fn push_dot_slash(out: &mut Vec<u8>)
    ensures
        final(out)@ == old(out)@ + dot_slash(),
{
    let lit: [u8; 2] = [46, 47];
    proof {
        assert(lit@ =~= dot_slash());
    }
    crate::bytes::push_range(out, lit.as_slice(), 0, 2);
}

fn push_html_suffix(out: &mut Vec<u8>)
    ensures
        final(out)@ == old(out)@ + html_suffix(),
{
    let lit: [u8; 7] = [46, 104, 116, 109, 108, 34, 62];
    proof {
        assert(lit@ =~= html_suffix());
    }
    crate::bytes::push_range(out, lit.as_slice(), 0, 7);
}

fn push_h_open(out: &mut Vec<u8>)
    ensures
        final(out)@ == old(out)@ + h_open(),
{
    let lit: [u8; 2] = [60, 104];
    proof {
        assert(lit@ =~= h_open());
    }
    crate::bytes::push_range(out, lit.as_slice(), 0, 2);
}

fn push_h_close(out: &mut Vec<u8>)
    ensures
        final(out)@ == old(out)@ + h_close(),
{
    let lit: [u8; 3] = [60, 47, 104];
    proof {
        assert(lit@ =~= h_close());
    }
    crate::bytes::push_range(out, lit.as_slice(), 0, 3);
}

fn push_code_tag(out: &mut Vec<u8>)
    ensures
        final(out)@ == old(out)@ + code_tag(),
{
    let lit: [u8; 4] = [99, 111, 100, 101];
    proof {
        assert(lit@ =~= code_tag());
    }
    crate::bytes::push_range(out, lit.as_slice(), 0, 4);
}

fn push_b_tag(out: &mut Vec<u8>)
    ensures
        final(out)@ == old(out)@ + b_tag(),
{
    let lit: [u8; 1] = [98];
    proof {
        assert(lit@ =~= b_tag());
    }
    crate::bytes::push_range(out, lit.as_slice(), 0, 1);
}

fn push_info_note(out: &mut Vec<u8>)
    ensures
        final(out)@ == old(out)@ + info_note(),
{
    let lit: [u8; 53] = [60, 112, 32, 99, 108, 97, 115, 115, 61, 34, 105, 110, 102, 111, 95, 104, 101, 97, 100, 34, 62, 84, 104, 105, 115, 32, 115, 101, 99, 116, 105, 111, 110, 32, 105, 115, 32, 105, 110, 102, 111, 114, 109, 97, 116, 105, 118, 101, 46, 60, 47, 112, 62];
    proof {
        assert(lit@ =~= info_note());
    }
    crate::bytes::push_range(out, lit.as_slice(), 0, 53);
}

} // verus!
