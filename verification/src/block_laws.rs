//! Properties of the block model that hold for every document.
use vstd::prelude::*;
use crate::text::{
    byte_offset, is_blank, lemma_line_len, lemma_lines_flatten, line_len, lines, trim_line_end,
    trim_newlines_end,
};
use crate::blocks::{
    BlockModel, norm_parts, para_sep, spec_rejoin, spec_rejoin_raw, SplitState, flush, fm_block_len, fm_chars,
    fm_close, lemma_fm_close_bound, lemma_blank_prefix_bound, spec_insert_after, insert_pos,
    break_before, drop_blank, spec_ensure_break,
    lemma_fm_chars_bound, spec_join, spec_open_fence, spec_split, split_body, split_init, split_run, split_step,
};

verus! {

/// A line of text: non-empty, with a `\n` at most as its last character.
pub open spec fn single_line(l: Seq<char>) -> bool {
    l.len() > 0 && forall|j: int| 0 <= j < l.len() - 1 ==> l[j] != '\n'
}

/// A block produced by the line-by-line split: non-empty, not frontmatter,
/// and, when atomic, a single line whose content satisfies `atomic`.
pub open spec fn well_split_block(b: BlockModel, atomic: spec_fn(Seq<char>) -> bool) -> bool {
    &&& b.text.len() > 0
    &&& !b.frontmatter
    &&& b.atomic ==> single_line(b.text) && atomic(trim_line_end(b.text))
}

proof fn lemma_join_flush(bs: Seq<BlockModel>, cur: Seq<char>)
    ensures
        spec_join(flush(bs, cur)) == spec_join(bs) + cur,
{
    if cur.len() > 0 {
        assert(flush(bs, cur).drop_last() =~= bs);
    } else {
        assert(spec_join(bs) + cur =~= spec_join(bs));
    }
}

proof fn lemma_join_push(bs: Seq<BlockModel>, b: BlockModel)
    ensures
        spec_join(bs.push(b)) == spec_join(bs) + b.text,
{
    assert(bs.push(b).drop_last() =~= bs);
}

/// The split state always holds exactly the text read so far.
pub(crate) proof fn lemma_run_text(ls: Seq<Seq<char>>, init: SplitState, atomic: spec_fn(Seq<char>) -> bool)
    ensures
        spec_join(split_run(ls, init, atomic).blocks) + split_run(ls, init, atomic).cur
            == spec_join(init.blocks) + init.cur + ls.flatten(),
    decreases ls.len(),
{
    if ls.len() == 0 {
        assert(spec_join(init.blocks) + init.cur + ls.flatten() =~= spec_join(init.blocks)
            + init.cur);
    } else {
        let prev = split_run(ls.drop_last(), init, atomic);
        let line = ls.last();
        lemma_run_text(ls.drop_last(), init, atomic);
        ls.drop_last().lemma_flatten_push(line);
        assert(ls.drop_last().push(line) =~= ls);
        lemma_join_flush(prev.blocks, prev.cur);
        let fb = flush(prev.blocks, prev.cur);
        lemma_join_push(fb, BlockModel { text: line, atomic: true, frontmatter: false });
        let before = spec_join(init.blocks) + init.cur + ls.drop_last().flatten();
        assert(before + line =~= spec_join(init.blocks) + init.cur + ls.flatten());
        assert(spec_join(prev.blocks) + (prev.cur + line) =~= spec_join(prev.blocks) + prev.cur
            + line);
        assert(spec_join(fb) + line + Seq::<char>::empty() =~= spec_join(fb) + line);
    }
}

/// Splitting is lossless: joining the blocks of any document gives the
/// document back exactly, whatever lines are atomic.
pub proof fn lemma_split_join_roundtrip(md: Seq<char>, atomic: spec_fn(Seq<char>) -> bool)
    ensures
        spec_join(spec_split(md, atomic)) == md,
{
    let body = split_body(md);
    let init = split_init(md);
    let st = split_run(lines(body), init, atomic);
    lemma_run_text(lines(body), init, atomic);
    lemma_lines_flatten(body);
    lemma_join_flush(st.blocks, st.cur);
    match fm_block_len(md) {
        Some(len) => {
            lemma_fm_chars_bound(md);
            lemma_blank_prefix_bound(md.skip(fm_chars(md)->0 as int));
            let b = init.blocks[0];
            assert(init.blocks.drop_last() =~= Seq::<BlockModel>::empty());
            assert(spec_join(Seq::<BlockModel>::empty()) =~= Seq::<char>::empty());
            assert(Seq::<char>::empty() + b.text =~= b.text);
            assert(spec_join(init.blocks) == b.text);
            assert(md.take(len as int) + md.skip(len as int) =~= md);
            assert(spec_join(init.blocks) + init.cur + body =~= md);
        },
        None => {
            assert(spec_join(init.blocks) + init.cur + body =~= md);
        },
    }
}

pub(crate) proof fn lemma_lines_shape(s: Seq<char>)
    ensures
        forall|k: int| 0 <= k < lines(s).len() ==> single_line(#[trigger] lines(s)[k]),
    decreases s.len(),
{
    if s.len() > 0 {
        lemma_line_len(s);
        let n = line_len(s) as int;
        lemma_lines_shape(s.skip(n));
        let ls = lines(s);
        assert forall|k: int| 0 <= k < ls.len() implies single_line(#[trigger] ls[k]) by {
            if k == 0 {
                assert(ls[0] == s.take(n));
                assert forall|j: int| 0 <= j < ls[0].len() - 1 implies ls[0][j] != '\n' by {
                    assert(ls[0][j] == s[j]);
                }
            } else {
                assert(ls[k] == lines(s.skip(n))[k - 1]);
            }
        }
    }
}

/// The blocks the line-by-line split adds are well formed, and the blocks it
/// started from stay in front.
pub(crate) proof fn lemma_run_shape(ls: Seq<Seq<char>>, init: SplitState, atomic: spec_fn(Seq<char>) -> bool)
    requires
        forall|k: int| 0 <= k < ls.len() ==> single_line(#[trigger] ls[k]),
    ensures
        ({
            let st = split_run(ls, init, atomic);
            &&& st.blocks.len() >= init.blocks.len()
            &&& st.blocks.take(init.blocks.len() as int) == init.blocks
            &&& forall|i: int|
                init.blocks.len() <= i < st.blocks.len() ==> well_split_block(
                    #[trigger] st.blocks[i],
                    atomic,
                )
        }),
    decreases ls.len(),
{
    if ls.len() == 0 {
        assert(init.blocks.take(init.blocks.len() as int) =~= init.blocks);
    } else {
        let prev = split_run(ls.drop_last(), init, atomic);
        assert forall|k: int| 0 <= k < ls.drop_last().len() implies single_line(
            #[trigger] ls.drop_last()[k],
        ) by {
            assert(ls.drop_last()[k] == ls[k]);
        }
        lemma_run_shape(ls.drop_last(), init, atomic);
        let line = ls.last();
        assert(single_line(ls[ls.len() - 1]));
        let st = split_step(prev, line, atomic);
        let n = init.blocks.len() as int;
        let fb = flush(prev.blocks, prev.cur);
        assert(fb.take(n) =~= prev.blocks.take(n));
        assert forall|i: int| n <= i < fb.len() implies well_split_block(#[trigger] fb[i], atomic) by {
            if i < prev.blocks.len() {
                assert(fb[i] == prev.blocks[i]);
            }
        }
        let content = trim_line_end(line);
        if prev.fence is None && !is_blank(line) && !((prev.closed || prev.cur.len() == 0)
            && spec_open_fence(content) is Some) && atomic(content) {
            let ab = fb.push(BlockModel { text: line, atomic: true, frontmatter: false });
            assert(ab.take(n) =~= fb.take(n));
            assert forall|i: int| n <= i < ab.len() implies well_split_block(
                #[trigger] ab[i],
                atomic,
            ) by {
                if i < fb.len() {
                    assert(ab[i] == fb[i]);
                }
            }
        }
    }
}

/// Shape of a split, for every document:
/// * no block is empty;
/// * a block is flagged frontmatter exactly when it is block 0 and the
///   document opens with closed YAML frontmatter, and that block is the
///   frontmatter plus the blank lines after it;
/// * an atomic block is a single line whose content `atomic` accepts.
pub proof fn lemma_split_shape(md: Seq<char>, atomic: spec_fn(Seq<char>) -> bool)
    ensures
        ({
            let bs = spec_split(md, atomic);
            &&& forall|i: int| 0 <= i < bs.len() ==> (#[trigger] bs[i]).text.len() > 0
            &&& forall|i: int|
                0 <= i < bs.len() ==> ((#[trigger] bs[i]).frontmatter <==> (i == 0
                    && fm_chars(md) is Some))
            &&& forall|i: int|
                0 <= i < bs.len() && (#[trigger] bs[i]).atomic ==> single_line(bs[i].text)
                    && atomic(trim_line_end(bs[i].text))
            &&& fm_chars(md) is Some ==> bs.len() > 0 && bs[0].text == md.take(
                fm_block_len(md)->0 as int,
            )
        }),
{
    let body = split_body(md);
    let init = split_init(md);
    lemma_lines_shape(body);
    lemma_run_shape(lines(body), init, atomic);
    let st = split_run(lines(body), init, atomic);
    let bs = spec_split(md, atomic);
    let n = init.blocks.len() as int;
    assert(bs.take(n) =~= st.blocks.take(n)) by {
        if st.cur.len() > 0 {
            assert(bs.take(n) =~= st.blocks.push(
                BlockModel { text: st.cur, atomic: false, frontmatter: false },
            ).take(n));
        }
    }
    assert forall|i: int| n <= i < bs.len() implies well_split_block(#[trigger] bs[i], atomic) by {
        if i < st.blocks.len() {
            assert(bs[i] == st.blocks[i]);
        }
    }
    if fm_chars(md) is Some {
        lemma_fm_chars_bound(md);
        lemma_blank_prefix_bound(md.skip(fm_chars(md)->0 as int));
        assert(bs[0] == bs.take(n)[0]);
        assert(bs[0] == init.blocks[0]);
        assert(bs[0].text.len() > 0);
    }
}

pub(crate) proof fn lemma_norm_parts_nonempty(bs: Seq<BlockModel>)
    ensures
        forall|k: int| 0 <= k < norm_parts(bs).len() ==> (#[trigger] norm_parts(bs)[k]).len() > 0,
    decreases bs.len(),
{
    if bs.len() > 0 {
        lemma_norm_parts_nonempty(bs.drop_last());
        let p = norm_parts(bs.drop_last());
        assert forall|k: int| 0 <= k < norm_parts(bs).len() implies (#[trigger] norm_parts(
            bs,
        )[k]).len() > 0 by {
            if k < p.len() {
                assert(norm_parts(bs)[k] == p[k]);
            }
        }
    }
}

proof fn lemma_rejoin_raw_ends_with_newline(bs: Seq<BlockModel>)
    ensures
        spec_rejoin_raw(bs).len() == 0 || spec_rejoin_raw(bs).last() == '\n',
    decreases bs.len(),
{
    if bs.len() > 0 && bs[0].frontmatter {
        lemma_rejoin_raw_ends_with_newline(bs.drop_first());
        let head = trim_newlines_end(bs[0].text);
        let body = spec_rejoin_raw(bs.drop_first());
        if body.len() > 0 {
            assert((head + para_sep() + body).last() == body.last());
        }
    } else {
        let parts = norm_parts(bs);
        if parts.len() > 0 {
            lemma_norm_parts_nonempty(bs);
            assert(parts.last() == parts[parts.len() - 1]);
        }
    }
}

/// A normalized body is either empty or ends with a line break.
pub proof fn lemma_rejoin_ends_with_newline(bs: Seq<BlockModel>)
    ensures
        spec_rejoin(bs).len() == 0 || spec_rejoin(bs).last() == '\n',
{
    lemma_rejoin_raw_ends_with_newline(bs);
    let r = spec_rejoin_raw(bs);
    if r.len() > 0 {
        assert((seq!['\n'] + r).last() == r.last());
    }
}

proof fn lemma_join_len(bs: Seq<BlockModel>)
    requires
        forall|i: int| 0 <= i < bs.len() ==> (#[trigger] bs[i]).text.len() > 0,
    ensures
        bs.len() <= spec_join(bs).len(),
    decreases bs.len(),
{
    if bs.len() > 0 {
        assert forall|i: int| 0 <= i < bs.drop_last().len() implies (
        #[trigger] bs.drop_last()[i]).text.len() > 0 by {
            assert(bs.drop_last()[i] == bs[i]);
        }
        lemma_join_len(bs.drop_last());
        assert(bs[bs.len() - 1].text.len() > 0);
    }
}

/// A document splits into at most as many blocks as it has characters.
pub proof fn lemma_split_count(md: Seq<char>, atomic: spec_fn(Seq<char>) -> bool)
    ensures
        spec_split(md, atomic).len() <= md.len(),
{
    lemma_split_shape(md, atomic);
    lemma_split_join_roundtrip(md, atomic);
    lemma_join_len(spec_split(md, atomic));
}

/// The first line of `x` ends in a `\n`, so any `y` that shares its first
/// `line_len(x)` characters has the same first line.
pub(crate) proof fn lemma_line_len_shared(x: Seq<char>, y: Seq<char>)
    requires
        line_len(x) > 0,
        x[line_len(x) - 1] == '\n',
        line_len(x) <= y.len(),
        y.take(line_len(x) as int) == x.take(line_len(x) as int),
    ensures
        line_len(y) == line_len(x),
    decreases x.len(),
{
    let k = line_len(x) as int;
    lemma_line_len(x);
    assert(y[0] == y.take(k)[0]);
    if x[0] != '\n' {
        assert(x.drop_first().take(k - 1) =~= x.take(k).drop_first());
        assert(y.drop_first().take(k - 1) =~= y.take(k).drop_first());
        assert(x.drop_first()[k - 2] == x[k - 1]);
        lemma_line_len_shared(x.drop_first(), y.drop_first());
    }
}

proof fn lemma_fm_close_prefix(s: Seq<char>, t: Seq<char>)
    requires
        fm_close(s) is Some,
        s[fm_close(s)->0 - 1] == '\n',
    ensures
        fm_close(s.take(fm_close(s)->0 as int) + t) == fm_close(s),
    decreases s.len(),
{
    let m = fm_close(s)->0 as int;
    lemma_fm_close_bound(s);
    lemma_line_len(s);
    let k = line_len(s) as int;
    let u = s.take(m) + t;
    let c = trim_line_end(s.take(k));
    if c == crate::blocks::dashes() || c == crate::blocks::dots() {
        assert(m == k);
        assert(u.take(k) =~= s.take(k));
        lemma_line_len_shared(s, u);
    } else {
        let r = s.skip(k);
        let m2 = fm_close(r)->0 as int;
        lemma_fm_close_bound(r);
        assert(m == k + m2);
        assert(k < s.len());
        assert(u.take(k) =~= s.take(k));
        lemma_line_len_shared(s, u);
        assert(r[m2 - 1] == s[m - 1]);
        lemma_fm_close_prefix(r, t);
        assert(u.skip(k) =~= r.take(m2) + t);
    }
}

/// Whether a document opens with frontmatter, and how long that run is,
/// depends on the run alone: when the run ends with a line break, the run
/// followed by any text opens with the same run, of the same byte length.
pub proof fn lemma_frontmatter_prefix(md: Seq<char>, t: Seq<char>)
    requires
        fm_chars(md) is Some,
        md[fm_chars(md)->0 - 1] == '\n',
    ensures
        fm_chars(md.take(fm_chars(md)->0 as int) + t) == fm_chars(md),
        byte_offset(md.take(fm_chars(md)->0 as int) + t, fm_chars(md)->0 as int) == byte_offset(
            md,
            fm_chars(md)->0 as int,
        ),
{
    let n = fm_chars(md)->0 as int;
    lemma_fm_chars_bound(md);
    lemma_line_len(md);
    let k = line_len(md) as int;
    let u = md.take(n) + t;
    let r = md.skip(k);
    let m = fm_close(r)->0 as int;
    lemma_fm_close_bound(r);
    assert(n == k + m);
    assert(u.take(k) =~= md.take(k));
    lemma_line_len_shared(md, u);
    assert(r[m - 1] == md[n - 1]);
    lemma_fm_close_prefix(r, t);
    assert(u.skip(k) =~= r.take(m) + t);
    assert(u.take(n) =~= md.take(n));
}

/// Two block lists that normalization cannot tell apart: block by block,
/// the same frontmatter flag and the same text up to trailing line breaks.
pub open spec fn same_normal_shape(a: Seq<BlockModel>, b: Seq<BlockModel>) -> bool {
    &&& a.len() == b.len()
    &&& forall|j: int|
        0 <= j < a.len() ==> (#[trigger] a[j]).frontmatter == b[j].frontmatter
            && trim_newlines_end(a[j].text) == trim_newlines_end(b[j].text)
}

proof fn lemma_norm_parts_congr(a: Seq<BlockModel>, b: Seq<BlockModel>)
    requires
        same_normal_shape(a, b),
    ensures
        norm_parts(a) == norm_parts(b),
    decreases a.len(),
{
    if a.len() > 0 {
        assert(a.last() == a[a.len() - 1]);
        assert forall|j: int| 0 <= j < a.drop_last().len() implies (
        #[trigger] a.drop_last()[j]).frontmatter == b.drop_last()[j].frontmatter
            && trim_newlines_end(a.drop_last()[j].text) == trim_newlines_end(
            b.drop_last()[j].text,
        ) by {
            assert(a.drop_last()[j] == a[j]);
            assert(b.drop_last()[j] == b[j]);
        }
        lemma_norm_parts_congr(a.drop_last(), b.drop_last());
    }
}

proof fn lemma_rejoin_raw_congr(a: Seq<BlockModel>, b: Seq<BlockModel>)
    requires
        same_normal_shape(a, b),
    ensures
        spec_rejoin_raw(a) == spec_rejoin_raw(b),
    decreases a.len(),
{
    if a.len() > 0 && a[0].frontmatter {
        assert forall|j: int| 0 <= j < a.drop_first().len() implies (
        #[trigger] a.drop_first()[j]).frontmatter == b.drop_first()[j].frontmatter
            && trim_newlines_end(a.drop_first()[j].text) == trim_newlines_end(
            b.drop_first()[j].text,
        ) by {
            assert(a.drop_first()[j] == a[j + 1]);
            assert(b.drop_first()[j] == b[j + 1]);
        }
        lemma_rejoin_raw_congr(a.drop_first(), b.drop_first());
    } else {
        lemma_norm_parts_congr(a, b);
    }
}

/// Normalization sees only each block's frontmatter flag and its text up to
/// trailing line breaks.
pub proof fn lemma_rejoin_congr(a: Seq<BlockModel>, b: Seq<BlockModel>)
    requires
        same_normal_shape(a, b),
    ensures
        spec_rejoin(a) == spec_rejoin(b),
{
    lemma_rejoin_raw_congr(a, b);
    if a.len() > 0 {
        assert(a[0].frontmatter == b[0].frontmatter);
    }
}

proof fn lemma_trim_ensure_break(t: Seq<char>)
    ensures
        trim_newlines_end(spec_ensure_break(t)) == trim_newlines_end(t),
{
    if t.len() == 0 || (t.len() >= 2 && t[t.len() - 1] == '\n' && t[t.len() - 2] == '\n') {
    } else if t.last() == '\n' {
        assert(t.push('\n').drop_last() =~= t);
        assert(t.push('\n').last() == '\n');
        assert(trim_newlines_end(t.push('\n')) == trim_newlines_end(t));
    } else {
        let u = t + para_sep();
        assert(u.drop_last() =~= t.push('\n'));
        assert(u.last() == '\n');
        assert(t.push('\n').drop_last() =~= t);
        assert(t.push('\n').last() == '\n');
        assert(trim_newlines_end(t.push('\n')) == trim_newlines_end(t));
        assert(trim_newlines_end(u) == trim_newlines_end(t.push('\n')));
    }
}

/// Inserting after block `i` gives the normalized join of the original
/// blocks with the non-blank inserted blocks spliced in right after block
/// `i` (at the end when `i` is the last block or past it): the paragraph
/// break given to the preceding block only separates, and normalization
/// replaces it.
pub proof fn lemma_insert_after_is_splice(bs: Seq<BlockModel>, i: int, ins: Seq<BlockModel>)
    requires
        0 <= i,
    ensures
        spec_rejoin(spec_insert_after(bs, i, ins)) == spec_rejoin(
            bs.take(insert_pos(i, bs.len() as int)) + drop_blank(ins) + bs.skip(
                insert_pos(i, bs.len() as int),
            ),
        ),
{
    let at = insert_pos(i, bs.len() as int);
    let b = break_before(bs, at);
    let d = drop_blank(ins);
    let x = b.take(at) + d + b.skip(at);
    let y = bs.take(at) + d + bs.skip(at);
    if at > 0 {
        lemma_trim_ensure_break(bs[at - 1].text);
    }
    assert forall|j: int| 0 <= j < x.len() implies (#[trigger] x[j]).frontmatter
        == y[j].frontmatter && trim_newlines_end(x[j].text) == trim_newlines_end(y[j].text) by {
        if j < at {
            assert(x[j] == b[j]);
            assert(y[j] == bs[j]);
        } else if j < at + d.len() {
            assert(x[j] == d[j - at]);
            assert(y[j] == d[j - at]);
        } else {
            assert(x[j] == b[j - d.len()]);
            assert(y[j] == bs[j - d.len()]);
        }
    }
    lemma_rejoin_congr(x, y);
}

/// A line that closes a frontmatter run: `---` or `...`, line ending aside.
pub open spec fn closes_fm(l: Seq<char>) -> bool {
    trim_line_end(l) == seq!['-', '-', '-'] || trim_line_end(l) == seq!['.', '.', '.']
}

#[verifier::spinoff_prover]
#[verifier::rlimit(50)]
proof fn lemma_fm_close_lines(s: Seq<char>)
    ensures
        fm_close(s) is Some <==> exists|j: int| 0 <= j < lines(s).len() && #[trigger] closes_fm(lines(s)[j]),
        forall|j: int|
            0 <= j < lines(s).len() && #[trigger] closes_fm(lines(s)[j]) && (forall|k: int|
                0 <= k < j ==> !closes_fm(#[trigger] lines(s)[k])) ==> fm_close(s) == Some(
                lines(s).take(j + 1).flatten().len(),
            ),
    decreases s.len(),
{
    if s.len() > 0 {
        lemma_line_len(s);
        let k = line_len(s) as int;
        let r = s.skip(k);
        lemma_fm_close_lines(r);
        let ls = lines(s);
        let lr = lines(r);
        assert(ls == seq![s.take(k)] + lr);
        assert(ls[0] == s.take(k));
        assert forall|j: int| 0 < j < ls.len() implies ls[j] == lr[j - 1] by {}
        let c = trim_line_end(s.take(k));
        assert(closes_fm(s.take(k)) == (c == crate::blocks::dashes() || c == crate::blocks::dots()));
        if closes_fm(ls[0]) {
            assert forall|j: int|
                0 <= j < ls.len() && #[trigger] closes_fm(ls[j]) && (forall|m: int|
                    0 <= m < j ==> !closes_fm(#[trigger] ls[m])) implies fm_close(s) == Some(
                ls.take(j + 1).flatten().len(),
            ) by {
                if j > 0 {
                    assert(!closes_fm(ls[0]));
                }
                assert(ls.take(1).drop_first() =~= Seq::<Seq<char>>::empty());
                assert(ls.take(1).first() == ls[0]);
                assert(ls.take(1).flatten() == ls[0] + Seq::<Seq<char>>::empty().flatten());
                assert(ls[0] + Seq::<char>::empty() =~= ls[0]);
            }
        } else {
            if exists|j: int| 0 <= j < ls.len() && #[trigger] closes_fm(ls[j]) {
                let j = choose|j: int| 0 <= j < ls.len() && #[trigger] closes_fm(ls[j]);
                assert(j > 0);
                assert(closes_fm(lr[j - 1]));
            }
            if exists|j: int| 0 <= j < lr.len() && #[trigger] closes_fm(lr[j]) {
                let j = choose|j: int| 0 <= j < lr.len() && #[trigger] closes_fm(lr[j]);
                assert(closes_fm(ls[j + 1]));
            }
            assert forall|j: int|
                0 <= j < ls.len() && #[trigger] closes_fm(ls[j]) && (forall|m: int|
                    0 <= m < j ==> !closes_fm(#[trigger] ls[m])) implies fm_close(s) == Some(
                ls.take(j + 1).flatten().len(),
            ) by {
                assert(j > 0);
                assert(closes_fm(lr[j - 1]));
                assert forall|m: int| 0 <= m < j - 1 implies !closes_fm(#[trigger] lr[m]) by {
                    assert(lr[m] == ls[m + 1]);
                }
                let t = ls.take(j + 1);
                assert(t.first() == s.take(k));
                assert(t.drop_first() =~= lr.take(j));
                assert(t.flatten() == s.take(k) + lr.take(j).flatten());
            }
        }
    }
}

/// Frontmatter, stated on the lines of the document: a document opens with
/// frontmatter exactly when its first line is `---` and some later line is
/// `---` or `...` (line endings aside); the run then ends with the first such
/// later line, whatever follows it.
#[verifier::spinoff_prover]
#[verifier::rlimit(50)]
pub proof fn lemma_frontmatter_law(md: Seq<char>)
    ensures
        fm_chars(md) is Some <==> (lines(md).len() > 0 && trim_line_end(lines(md)[0]) == seq![
            '-',
            '-',
            '-',
        ] && exists|j: int| 1 <= j < lines(md).len() && #[trigger] closes_fm(lines(md)[j])),
        forall|j: int|
            1 <= j < lines(md).len() && #[trigger] closes_fm(lines(md)[j]) && (forall|k: int|
                1 <= k < j ==> !closes_fm(#[trigger] lines(md)[k])) ==> fm_chars(md) is Some ==> fm_chars(md)
                == Some(lines(md).take(j + 1).flatten().len()),
{
    if md.len() > 0 {
        lemma_line_len(md);
        let k = line_len(md) as int;
        let r = md.skip(k);
        lemma_fm_close_lines(r);
        let ls = lines(md);
        let lr = lines(r);
        assert(ls == seq![md.take(k)] + lr);
        assert(ls[0] == md.take(k));
        assert forall|j: int| 0 < j < ls.len() implies ls[j] == lr[j - 1] by {}
        assert(crate::blocks::dashes() == seq!['-', '-', '-']);
        if exists|j: int| 1 <= j < ls.len() && #[trigger] closes_fm(ls[j]) {
            let j = choose|j: int| 1 <= j < ls.len() && #[trigger] closes_fm(ls[j]);
            assert(closes_fm(lr[j - 1]));
        }
        if exists|j: int| 0 <= j < lr.len() && #[trigger] closes_fm(lr[j]) {
            let j = choose|j: int| 0 <= j < lr.len() && #[trigger] closes_fm(lr[j]);
            assert(closes_fm(ls[j + 1]));
        }
        assert forall|j: int|
            1 <= j < ls.len() && #[trigger] closes_fm(ls[j]) && (forall|m: int|
                1 <= m < j ==> !closes_fm(#[trigger] ls[m])) && fm_chars(md) is Some implies fm_chars(md)
            == Some(ls.take(j + 1).flatten().len()) by {
            assert(closes_fm(lr[j - 1]));
            assert forall|m: int| 0 <= m < j - 1 implies !closes_fm(#[trigger] lr[m]) by {
                assert(lr[m] == ls[m + 1]);
            }
            let t = ls.take(j + 1);
            assert(t.first() == md.take(k));
            assert(t.drop_first() =~= lr.take(j));
            assert(t.flatten() == md.take(k) + lr.take(j).flatten());
        }
    } else {
        assert(lines(md).len() == 0);
    }
}

} // verus!
