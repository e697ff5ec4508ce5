//! Normalizing a body twice gives the same text as normalizing it once: the
//! normalized body is a fixed point of the split-and-rejoin.
use vstd::prelude::*;
use crate::text::{
    is_blank, is_ws, lemma_blank_iff_trim_empty, lemma_line_len, line_len, lines, trim,
    trim_line_end, trim_newlines_end,
};
use crate::blocks::{
    BlockModel, SplitState, empty_state, flush, norm_parts, spec_open_fence,
    spec_is_closing_fence, split_run, split_step,
};
use crate::block_laws::{
    lemma_line_len_shared, lemma_lines_shape, lemma_run_shape, lemma_run_text, single_line,
};
use crate::blocks::{
    blank_prefix, dots, fm_close, fm_block_len, lemma_blank_prefix_bound, lemma_fm_chars_bound,
    lemma_fm_close_bound, dashes, fm_chars, join_with, para_sep, plain, spec_join, spec_rejoin, spec_rejoin_raw,
    spec_split, split_body, split_init,
};
use crate::block_laws::{lemma_frontmatter_prefix, lemma_split_join_roundtrip, lemma_split_shape};
use crate::text::lemma_lines_flatten;
use crate::autocomplete::{after_last_newline, lemma_after_last_newline};

verus! {

// ---------------------------------------------------------------------------
// Lines of concatenated text
// ---------------------------------------------------------------------------

/// Every line but the last ends with a line break.
pub proof fn lemma_lines_nl(s: Seq<char>)
    ensures
        forall|k: int| 0 <= k < lines(s).len() - 1 ==> (#[trigger] lines(s)[k]).last() == '\n',
        lines(s).len() == 0 <==> s.len() == 0,
    decreases s.len(),
{
    if s.len() > 0 {
        lemma_line_len(s);
        let n = line_len(s) as int;
        lemma_lines_nl(s.skip(n));
        let ls = lines(s);
        assert forall|k: int| 0 <= k < ls.len() - 1 implies (#[trigger] ls[k]).last() == '\n' by {
            if k == 0 {
                assert(ls[0] == s.take(n));
                assert(s.skip(n).len() > 0);
                assert(s.take(n).last() == s[n - 1]);
            } else {
                assert(ls[k] == lines(s.skip(n))[k - 1]);
            }
        }
    }
}

proof fn lemma_line_len_prefix(l: Seq<char>, z: Seq<char>)
    requires
        forall|i: int| 0 <= i < l.len() ==> l[i] != '\n',
    ensures
        line_len(l + z) == l.len() + line_len(z),
    decreases l.len(),
{
    if l.len() == 0 {
        assert(l + z =~= z);
    } else {
        assert((l + z)[0] == l[0]);
        assert((l + z).drop_first() =~= l.drop_first() + z);
        lemma_line_len_prefix(l.drop_first(), z);
    }
}

/// Text that ends a line splits into lines independently of what follows.
pub proof fn lemma_lines_append(a: Seq<char>, b: Seq<char>)
    requires
        a.len() == 0 || a.last() == '\n',
    ensures
        lines(a + b) == lines(a) + lines(b),
    decreases a.len(),
{
    if a.len() == 0 {
        assert(a + b =~= b);
        assert(lines(a) + lines(b) =~= lines(b));
    } else {
        lemma_line_len(a);
        let n = line_len(a) as int;
        assert(a[n - 1] == '\n');
        assert((a + b).take(n) =~= a.take(n));
        lemma_line_len_shared(a, a + b);
        assert((a + b).skip(n) =~= a.skip(n) + b);
        if a.skip(n).len() > 0 {
            assert(a.skip(n).last() == a.last());
        }
        lemma_line_len(a + b);
        lemma_lines_append(a.skip(n), b);
        assert(lines(a + b) =~= seq![a.take(n)] + (lines(a.skip(n)) + lines(b)));
        assert(lines(a) =~= seq![a.take(n)] + lines(a.skip(n)));
        assert(lines(a + b) =~= lines(a) + lines(b));
    }
}

/// A single line is its own only line.
pub proof fn lemma_lines_single(l: Seq<char>)
    requires
        single_line(l),
    ensures
        lines(l) == seq![l],
{
    lemma_line_len(l);
    let n = line_len(l) as int;
    if n < l.len() {
        assert(l[n - 1] == '\n');
    }
    assert(l.take(n) =~= l);
    assert(l.skip(n).len() == 0);
    assert(lines(l.skip(n)).len() == 0);
    assert(lines(l) == seq![l.take(n)] + lines(l.skip(n)));
    assert(lines(l) =~= seq![l]);
}

/// Running the split over two runs of lines is running it over the first,
/// then over the second.
pub proof fn lemma_run_append(
    l1: Seq<Seq<char>>,
    l2: Seq<Seq<char>>,
    init: SplitState,
    atomic: spec_fn(Seq<char>) -> bool,
)
    ensures
        split_run(l1 + l2, init, atomic) == split_run(l2, split_run(l1, init, atomic), atomic),
    decreases l2.len(),
{
    if l2.len() == 0 {
        assert(l1 + l2 =~= l1);
    } else {
        assert((l1 + l2).drop_last() =~= l1 + l2.drop_last());
        assert((l1 + l2).last() == l2.last());
        lemma_run_append(l1, l2.drop_last(), init, atomic);
    }
}

// ---------------------------------------------------------------------------
// Blocks are self-contained segments
// ---------------------------------------------------------------------------

/// The split state holding only the block being built.
pub open spec fn seg_of(st: SplitState) -> SplitState {
    SplitState { blocks: Seq::empty(), cur: st.cur, fence: st.fence, closed: st.closed }
}

/// The block being built reads the same when split on its own: splitting
/// its text from the start gives no finished block and the same fence and
/// break state.
pub open spec fn cur_ok(st: SplitState, atomic: spec_fn(Seq<char>) -> bool) -> bool {
    if st.cur.len() == 0 {
        st.fence is None && !st.closed
    } else {
        split_run(lines(st.cur), empty_state(), atomic) == seg_of(st)
    }
}

/// A finished block reads the same when split on its own: an atomic block
/// is one non-blank line whose content is atomic; any other block splits
/// into no finished block, with no fence left open.
pub open spec fn good_block(b: BlockModel, atomic: spec_fn(Seq<char>) -> bool) -> bool {
    if b.atomic {
        single_line(b.text) && !is_blank(b.text) && atomic(trim_line_end(b.text))
    } else {
        let r = split_run(lines(b.text), empty_state(), atomic);
        &&& b.text.len() > 0
        &&& r.blocks.len() == 0
        &&& r.cur == b.text
        &&& r.fence is None
    }
}

proof fn lemma_run_single(l: Seq<char>, st: SplitState, atomic: spec_fn(Seq<char>) -> bool)
    ensures
        split_run(seq![l], st, atomic) == split_step(st, l, atomic),
{
    assert(seq![l].drop_last() =~= Seq::<Seq<char>>::empty());
    assert(seq![l].last() == l);
    assert(split_run(Seq::<Seq<char>>::empty(), st, atomic) == st);
}

/// One line keeps the block being built self-contained, and any block it
/// finishes is self-contained.
proof fn lemma_step_inv(st: SplitState, line: Seq<char>, atomic: spec_fn(Seq<char>) -> bool)
    requires
        cur_ok(st, atomic),
        single_line(line),
        st.cur.len() == 0 || st.cur.last() == '\n',
    ensures
        ({
            let s2 = split_step(st, line, atomic);
            &&& cur_ok(s2, atomic)
            &&& s2.blocks.len() >= st.blocks.len()
            &&& s2.blocks.take(st.blocks.len() as int) == st.blocks
            &&& forall|i: int|
                st.blocks.len() <= i < s2.blocks.len() ==> good_block(#[trigger] s2.blocks[i], atomic)
            &&& s2.cur.len() == 0 || s2.cur.last() == line.last()
        }),
{
    let content = trim_line_end(line);
    let fresh = empty_state();
    let s2 = split_step(st, line, atomic);
    let g = seg_of(st);
    lemma_lines_single(line);
    lemma_run_single(line, fresh, atomic);
    if st.cur.len() > 0 {
        lemma_lines_append(st.cur, line);
        assert(lines(st.cur + line) =~= lines(st.cur).push(line));
        assert(lines(st.cur).push(line).drop_last() =~= lines(st.cur));
        assert(split_run(lines(st.cur + line), fresh, atomic) == split_step(g, line, atomic));
    } else {
        assert(st.cur + line =~= line);
        assert(st.cur =~= Seq::<char>::empty());
        assert(g == fresh);
    }
    let n = st.blocks.len() as int;
    let fb = flush(st.blocks, st.cur);
    assert(fb.take(n) =~= st.blocks);
    if st.cur.len() > 0 {
        assert(fb.len() == n + 1);
        assert(fb[n] == BlockModel { text: st.cur, atomic: false, frontmatter: false });
    }
    match st.fence {
        Some(_) => {
            assert(s2.blocks == st.blocks);
            assert(s2.blocks.take(n) =~= st.blocks);
        },
        None => {
            if is_blank(line) {
                assert(s2.blocks.take(n) =~= st.blocks);
            } else if (st.closed || st.cur.len() == 0) && spec_open_fence(content) is Some {
                if st.closed {
                    assert(st.cur.len() > 0);
                    assert(split_step(fresh, line, atomic) == seg_of(s2));
                } else {
                    assert(s2.blocks.take(n) =~= st.blocks);
                }
            } else if atomic(content) {
                let ab = fb.push(BlockModel { text: line, atomic: true, frontmatter: false });
                assert(ab.take(n) =~= st.blocks);
                assert forall|i: int| n <= i < ab.len() implies good_block(#[trigger] ab[i], atomic) by {
                    if i < fb.len() {
                        assert(ab[i] == fb[i]);
                    }
                }
            } else if st.closed {
                assert(st.cur.len() > 0);
                assert(split_step(fresh, line, atomic) == seg_of(s2));
            } else {
                assert(s2.blocks.take(n) =~= st.blocks);
            }
        },
    }
}

/// Splitting keeps the block being built self-contained and finishes only
/// self-contained blocks.
pub proof fn lemma_run_inv(ls: Seq<Seq<char>>, init: SplitState, atomic: spec_fn(Seq<char>) -> bool)
    requires
        cur_ok(init, atomic),
        init.cur.len() == 0 || init.cur.last() == '\n',
        forall|k: int| 0 <= k < ls.len() ==> single_line(#[trigger] ls[k]),
        forall|k: int| 0 <= k < ls.len() - 1 ==> (#[trigger] ls[k]).last() == '\n',
    ensures
        ({
            let st = split_run(ls, init, atomic);
            &&& cur_ok(st, atomic)
            &&& st.blocks.len() >= init.blocks.len()
            &&& st.blocks.take(init.blocks.len() as int) == init.blocks
            &&& forall|i: int|
                init.blocks.len() <= i < st.blocks.len() ==> good_block(#[trigger] st.blocks[i], atomic)
            &&& st.cur.len() == 0 || (ls.len() == 0 && st.cur.last() == '\n') || (ls.len() > 0
                && st.cur.last() == ls.last().last())
        }),
    decreases ls.len(),
{
    if ls.len() > 0 {
        let dl = ls.drop_last();
        assert forall|k: int| 0 <= k < dl.len() implies single_line(#[trigger] dl[k]) by {
            assert(dl[k] == ls[k]);
        }
        assert forall|k: int| 0 <= k < dl.len() - 1 implies (#[trigger] dl[k]).last() == '\n' by {
            assert(dl[k] == ls[k]);
        }
        lemma_run_inv(dl, init, atomic);
        let prev = split_run(dl, init, atomic);
        if dl.len() > 0 {
            assert(dl.last() == ls[ls.len() - 2]);
        }
        assert(single_line(ls[ls.len() - 1]));
        lemma_step_inv(prev, ls.last(), atomic);
        let st = split_run(ls, init, atomic);
        let n = init.blocks.len() as int;
        let m = prev.blocks.len() as int;
        assert(st.blocks.take(m) == prev.blocks);
        assert(st.blocks.take(n) =~= prev.blocks.take(n));
        assert forall|i: int| n <= i < st.blocks.len() implies good_block(#[trigger] st.blocks[i], atomic) by {
            if i < m {
                assert(st.blocks[i] == st.blocks.take(m)[i]);
            }
        }
    }
}

// ---------------------------------------------------------------------------
// Trailing line breaks
// ---------------------------------------------------------------------------

/// `c` is a line-break character.
pub open spec fn is_nl(c: char) -> bool {
    c == '\n' || c == '\r'
}

/// `s` has no two `\r` in a row.
pub open spec fn no_double_cr(s: Seq<char>) -> bool {
    forall|i: int| #![trigger s[i]] 0 <= i < s.len() - 1 ==> !(s[i] == '\r' && s[i + 1] == '\r')
}

proof fn lemma_blank_append(a: Seq<char>, b: Seq<char>)
    ensures
        is_blank(a + b) == (is_blank(a) && is_blank(b)),
{
    if is_blank(a) && is_blank(b) {
        assert forall|i: int| 0 <= i < (a + b).len() implies is_ws(#[trigger] (a + b)[i]) by {
            if i < a.len() {
                assert((a + b)[i] == a[i]);
            } else {
                assert((a + b)[i] == b[i - a.len()]);
            }
        }
    }
    if is_blank(a + b) {
        assert forall|i: int| 0 <= i < a.len() implies is_ws(#[trigger] a[i]) by {
            assert((a + b)[i] == a[i]);
        }
        assert forall|i: int| 0 <= i < b.len() implies is_ws(#[trigger] b[i]) by {
            assert((a + b)[a.len() + i] == b[i]);
        }
    }
}

/// Stripping the trailing line breaks of `s` keeps a prefix of `s`, ends in
/// a character other than a line break, and leaves only line breaks behind.
proof fn lemma_trim_nl_shape(s: Seq<char>)
    ensures
        trim_newlines_end(s).len() <= s.len(),
        s.take(trim_newlines_end(s).len() as int) == trim_newlines_end(s),
        forall|i: int| trim_newlines_end(s).len() <= i < s.len() ==> is_nl(#[trigger] s[i]),
        trim_newlines_end(s).len() == 0 || !is_nl(trim_newlines_end(s).last()),
    decreases s.len(),
{
    if s.len() > 0 && is_nl(s.last()) {
        lemma_trim_nl_shape(s.drop_last());
        let t = trim_newlines_end(s);
        assert(s.take(t.len() as int) =~= s.drop_last().take(t.len() as int));
        assert forall|i: int| t.len() <= i < s.len() implies is_nl(#[trigger] s[i]) by {
            if i < s.len() - 1 {
                assert(s[i] == s.drop_last()[i]);
            }
        }
    } else {
        assert(s.take(s.len() as int) =~= s);
    }
}

/// Appending line breaks does not change what stripping them leaves.
proof fn lemma_trim_nl_append(q: Seq<char>, z: Seq<char>)
    requires
        forall|i: int| 0 <= i < z.len() ==> is_nl(#[trigger] z[i]),
    ensures
        trim_newlines_end(q + z) == trim_newlines_end(q),
    decreases z.len(),
{
    if z.len() == 0 {
        assert(q + z =~= q);
    } else {
        assert((q + z).drop_last() =~= q + z.drop_last());
        assert((q + z).last() == z[z.len() - 1]);
        lemma_trim_nl_append(q, z.drop_last());
    }
}

/// Every line of blank text is blank.
proof fn lemma_lines_blank(s: Seq<char>)
    requires
        is_blank(s),
    ensures
        forall|k: int| 0 <= k < lines(s).len() ==> is_blank(#[trigger] lines(s)[k]),
    decreases s.len(),
{
    if s.len() > 0 {
        lemma_line_len(s);
        let n = line_len(s) as int;
        assert(is_blank(s.skip(n))) by {
            assert forall|i: int| 0 <= i < s.skip(n).len() implies is_ws(#[trigger] s.skip(n)[i]) by {
                assert(s.skip(n)[i] == s[n + i]);
            }
        }
        lemma_lines_blank(s.skip(n));
        let ls = lines(s);
        assert forall|k: int| 0 <= k < ls.len() implies is_blank(#[trigger] ls[k]) by {
            if k == 0 {
                assert forall|i: int| 0 <= i < ls[0].len() implies is_ws(#[trigger] ls[0][i]) by {
                    assert(ls[0][i] == s[i]);
                }
            } else {
                assert(ls[k] == lines(s.skip(n))[k - 1]);
            }
        }
    }
}

/// An open fence always asks for a closing run of at least one character.
pub open spec fn fence_ok(f: Option<(char, nat)>) -> bool {
    f matches Some((_, n)) ==> n >= 1
}

proof fn lemma_run_fence_ok(ls: Seq<Seq<char>>, init: SplitState, atomic: spec_fn(Seq<char>) -> bool)
    requires
        fence_ok(init.fence),
    ensures
        fence_ok(split_run(ls, init, atomic).fence),
    decreases ls.len(),
{
    if ls.len() > 0 {
        lemma_run_fence_ok(ls.drop_last(), init, atomic);
    }
}

/// Blank lines neither finish a block nor open or close a fence.
proof fn lemma_blank_run(ls: Seq<Seq<char>>, st: SplitState, atomic: spec_fn(Seq<char>) -> bool)
    requires
        fence_ok(st.fence),
        forall|k: int| 0 <= k < ls.len() ==> is_blank(#[trigger] ls[k]),
    ensures
        split_run(ls, st, atomic).fence == st.fence,
        split_run(ls, st, atomic).blocks == st.blocks,
    decreases ls.len(),
{
    if ls.len() > 0 {
        assert forall|k: int| 0 <= k < ls.drop_last().len() implies is_blank(
            #[trigger] ls.drop_last()[k],
        ) by {
            assert(ls.drop_last()[k] == ls[k]);
        }
        lemma_blank_run(ls.drop_last(), st, atomic);
        let line = ls.last();
        assert(is_blank(ls[ls.len() - 1]));
        let c = trim_line_end(line);
        assert(is_blank(c)) by {
            assert forall|i: int| 0 <= i < c.len() implies is_ws(#[trigger] c[i]) by {
                assert(c[i] == line[i]);
            }
        }
        lemma_blank_iff_trim_empty(c);
    }
}

/// The last line of a block, followed by the line breaks that trimming
/// strips: with no two `\r` in a row, its content is the trimmed line.
proof fn lemma_last_line(l: Seq<char>, z: Seq<char>)
    requires
        l.len() > 0,
        forall|i: int| 0 <= i < l.len() ==> l[i] != '\n',
        !is_nl(l.last()),
        forall|i: int| 0 <= i < z.len() ==> is_nl(#[trigger] z[i]),
        no_double_cr(z),
    ensures
        ({
            let k = line_len(z) as int;
            let z1 = z.take(k);
            &&& k <= z.len()
            &&& single_line(l + z1)
            &&& trim_line_end(l + z1) == l
            &&& is_blank(l + z1) == is_blank(l)
            &&& lines(l + z) == seq![l + z1] + lines(z.skip(k))
            &&& is_blank(z.skip(k))
        }),
{
    lemma_line_len(z);
    let k = line_len(z) as int;
    let z1 = z.take(k);
    if z.len() == 0 {
        assert(z1 =~= Seq::<char>::empty());
        assert(l + z1 =~= l);
    } else if z[0] == '\n' {
        assert(z1 =~= seq!['\n']);
        assert((l + z1).drop_last() =~= l);
    } else {
        assert(z[0] == '\r');
        if z.len() == 1 {
            assert(k == 1);
            assert(z1 =~= seq!['\r']);
            assert((l + z1).drop_last() =~= l);
        } else {
            assert(z[1] == '\n');
            assert(z.drop_first()[0] == '\n');
            assert(k == 2);
            assert(z1 =~= seq!['\r', '\n']);
            assert((l + z1).drop_last() =~= l.push('\r'));
            assert(l.push('\r').drop_last() =~= l);
        }
    }
    assert forall|i: int| 0 <= i < z1.len() implies is_ws(#[trigger] z1[i]) by {
        assert(z1[i] == z[i]);
    }
    lemma_blank_append(l, z1);
    assert forall|j: int| 0 <= j < (l + z1).len() - 1 implies (l + z1)[j] != '\n' by {
        if j < l.len() {
            assert((l + z1)[j] == l[j]);
        } else {
            assert((l + z1)[j] == z1[j - l.len()]);
        }
    }
    lemma_line_len_prefix(l, z);
    lemma_line_len(l + z);
    assert((l + z).take(l.len() + k) =~= l + z1);
    assert((l + z).skip(l.len() + k) =~= z.skip(k));
    assert(lines(l + z) == seq![(l + z).take(l.len() + k)] + lines((l + z).skip(l.len() + k)));
    assert forall|i: int| 0 <= i < z.skip(k).len() implies is_ws(#[trigger] z.skip(k)[i]) by {
        assert(z.skip(k)[i] == z[k + i]);
    }
}

/// Splitting `q + "\n"`, where `q` is a block's text with its trailing line
/// breaks stripped, behaves as splitting the block: no finished block, the
/// same open fence, and the same blankness of the first line.
#[verifier::spinoff_prover]
#[verifier::rlimit(50)]
proof fn lemma_part_seg(t: Seq<char>, atomic: spec_fn(Seq<char>) -> bool)
    requires
        split_run(lines(t), empty_state(), atomic).blocks.len() == 0,
        no_double_cr(t),
        !is_blank(trim_newlines_end(t)),
    ensures
        ({
            let q = trim_newlines_end(t);
            let r = split_run(lines(t), empty_state(), atomic);
            let r2 = split_run(lines(q.push('\n')), empty_state(), atomic);
            &&& r2.blocks.len() == 0
            &&& r2.cur == q.push('\n')
            &&& r2.fence == r.fence
            &&& lines(t).len() > 0
            &&& lines(q.push('\n')).len() > 0
            &&& is_blank(lines(q.push('\n'))[0]) == is_blank(lines(t)[0])
        }),
{
    let fresh = empty_state();
    let q = trim_newlines_end(t);
    lemma_trim_nl_shape(t);
    let z = t.skip(q.len() as int);
    assert(t =~= q + z);
    assert forall|i: int| 0 <= i < z.len() implies is_nl(#[trigger] z[i]) by {
        assert(z[i] == t[q.len() + i]);
    }
    assert(no_double_cr(z)) by {
        assert forall|i: int| 0 <= i < z.len() - 1 implies !(#[trigger] z[i] == '\r' && z[i + 1]
            == '\r') by {
            assert(z[i] == t[q.len() + i]);
            assert(z[i + 1] == t[q.len() + i + 1]);
        }
    }
    assert(q.len() > 0);
    lemma_after_last_newline(q);
    let a = after_last_newline(q) as int;
    if a == q.len() {
        assert(q[a - 1] == '\n');
    }
    let p0 = q.take(a);
    let l = q.skip(a);
    assert(q =~= p0 + l);
    assert(l.last() == q.last());
    assert forall|i: int| 0 <= i < l.len() implies l[i] != '\n' by {
        assert(l[i] == q[a + i]);
    }
    if a > 0 {
        assert(p0.last() == q[a - 1]);
    }
    lemma_last_line(l, z);
    let k = line_len(z) as int;
    let z1 = z.take(k);
    let z2 = z.skip(k);
    // The block's lines and the part's lines.
    assert(t =~= p0 + (l + z));
    lemma_lines_append(p0, l + z);
    let lt = lines(p0) + seq![l + z1] + lines(z2);
    assert(lines(t) =~= lt);
    let qn = q.push('\n');
    assert(qn =~= p0 + l.push('\n'));
    lemma_lines_append(p0, l.push('\n'));
    assert(single_line(l.push('\n'))) by {
        assert forall|j: int| 0 <= j < l.push('\n').len() - 1 implies l.push('\n')[j] != '\n' by {
            assert(l.push('\n')[j] == l[j]);
        }
    }
    lemma_lines_single(l.push('\n'));
    let lq = lines(p0) + seq![l.push('\n')];
    assert(lines(qn) =~= lq);
    // Running both.
    let s0 = split_run(lines(p0), fresh, atomic);
    lemma_run_append(lines(p0), seq![l + z1], fresh, atomic);
    lemma_run_single(l + z1, s0, atomic);
    let s1t = split_step(s0, l + z1, atomic);
    lemma_run_append(lines(p0) + seq![l + z1], lines(z2), fresh, atomic);
    assert(split_run(lt, fresh, atomic) == split_run(lines(z2), s1t, atomic));
    lemma_run_append(lines(p0), seq![l.push('\n')], fresh, atomic);
    lemma_run_single(l.push('\n'), s0, atomic);
    let s1q = split_step(s0, l.push('\n'), atomic);
    assert(split_run(lq, fresh, atomic) == s1q);
    // Blocks only grow.
    lemma_lines_shape(z2);
    lemma_run_shape(lines(z2), s1t, atomic);
    lemma_lines_shape(p0);
    lemma_run_shape(seq![l + z1], s0, atomic);
    assert(s1t.blocks.len() == 0);
    assert(s0.blocks.len() == 0);
    // The two last lines read the same.
    assert((l.push('\n')).drop_last() =~= l);
    assert(trim_line_end(l.push('\n')) == l);
    assert forall|j: int| 0 <= j < 1 implies is_ws(#[trigger] seq!['\n'][j]) by {}
    assert(l.push('\n') =~= l + seq!['\n']);
    lemma_blank_append(l, seq!['\n']);
    assert(s1q.fence == s1t.fence);
    assert(s1q.blocks == s1t.blocks);
    // Trailing blank lines change nothing.
    lemma_lines_blank(z2);
    lemma_run_fence_ok(lines(p0) + seq![l + z1], fresh, atomic);
    lemma_blank_run(lines(z2), s1t, atomic);
    // The text read so far.
    lemma_run_text(lines(qn), fresh, atomic);
    lemma_lines_flatten(qn);
    assert(spec_join(Seq::<BlockModel>::empty()) == Seq::<char>::empty());
    assert(s1q.blocks =~= Seq::<BlockModel>::empty());
    assert(Seq::<char>::empty() + Seq::<char>::empty() + qn =~= qn);
    assert(Seq::<char>::empty() + s1q.cur =~= s1q.cur);
    // First lines.
    lemma_lines_nl(p0);
    if p0.len() > 0 {
        assert(lt[0] == lines(p0)[0]);
        assert(lq[0] == lines(p0)[0]);
    } else {
        assert(lines(p0).len() == 0);
        assert(lt[0] == l + z1);
        assert(lq[0] == l.push('\n'));
    }
}

/// An atomic block's trimmed text, followed by a line break, is again one
/// atomic block when split on its own.
proof fn lemma_part_atomic(t: Seq<char>, atomic: spec_fn(Seq<char>) -> bool)
    requires
        single_line(t),
        !is_blank(t),
        atomic(trim_line_end(t)),
        spec_open_fence(trim_line_end(t)) is None,
        no_double_cr(t),
    ensures
        ({
            let q = trim_newlines_end(t);
            &&& !is_blank(q)
            &&& split_run(lines(q.push('\n')), empty_state(), atomic) == SplitState {
                blocks: seq![BlockModel { text: q.push('\n'), atomic: true, frontmatter: false }],
                cur: Seq::empty(),
                fence: None,
                closed: false,
            }
            &&& !is_blank(lines(q.push('\n'))[0])
        }),
{
    let q = trim_newlines_end(t);
    lemma_trim_nl_shape(t);
    let z = t.skip(q.len() as int);
    assert(t =~= q + z);
    assert forall|i: int| 0 <= i < z.len() implies is_nl(#[trigger] z[i]) by {
        assert(z[i] == t[q.len() + i]);
    }
    assert(no_double_cr(z)) by {
        assert forall|i: int| 0 <= i < z.len() - 1 implies !(#[trigger] z[i] == '\r' && z[i + 1]
            == '\r') by {
            assert(z[i] == t[q.len() + i]);
            assert(z[i + 1] == t[q.len() + i + 1]);
        }
    }
    assert forall|i: int| 0 <= i < z.len() implies is_ws(#[trigger] z[i]) by {}
    lemma_blank_append(q, z);
    assert(q.len() > 0);
    assert forall|i: int| 0 <= i < q.len() implies q[i] != '\n' by {
        assert(q[i] == t[i]);
        if i == q.len() - 1 {
        } else {
            assert(i < t.len() - 1);
        }
    }
    lemma_last_line(q, z);
    let k = line_len(z) as int;
    let z1 = z.take(k);
    let z2 = z.skip(k);
    // `t` is one line, so nothing follows the first line of `z`.
    lemma_lines_single(t);
    lemma_lines_nl(z2);
    if z2.len() > 0 {
        assert(lines(t).len() > 1);
    }
    assert(z2.len() == 0);
    assert(t =~= q + z1);
    let qn = q.push('\n');
    assert(qn.drop_last() =~= q);
    assert(single_line(qn)) by {
        assert forall|j: int| 0 <= j < qn.len() - 1 implies qn[j] != '\n' by {
            assert(qn[j] == q[j]);
        }
    }
    lemma_lines_single(qn);
    lemma_run_single(qn, empty_state(), atomic);
    assert(qn =~= q + seq!['\n']);
    assert forall|j: int| 0 <= j < 1 implies is_ws(#[trigger] seq!['\n'][j]) by {}
    lemma_blank_append(q, seq!['\n']);
    assert(trim_line_end(qn) == q);
    assert(flush(Seq::<BlockModel>::empty(), Seq::<char>::empty()) == Seq::<BlockModel>::empty());
    assert(Seq::<BlockModel>::empty().push(BlockModel { text: qn, atomic: true, frontmatter: false })
        =~= seq![BlockModel { text: qn, atomic: true, frontmatter: false }]);
}

// ---------------------------------------------------------------------------
// Splitting a normalized body
// ---------------------------------------------------------------------------

/// `st` holding the finished blocks `bs` instead of its own.
pub open spec fn with_blocks(st: SplitState, bs: Seq<BlockModel>) -> SplitState {
    SplitState { blocks: bs, cur: st.cur, fence: st.fence, closed: st.closed }
}

/// A fresh split state after the finished blocks `bs`.
pub open spec fn fresh_with(bs: Seq<BlockModel>) -> SplitState {
    with_blocks(empty_state(), bs)
}

proof fn lemma_step_shift(st: SplitState, l: Seq<char>, x: Seq<BlockModel>, atomic: spec_fn(Seq<char>) -> bool)
    ensures
        split_step(with_blocks(st, x + st.blocks), l, atomic) == with_blocks(
            split_step(st, l, atomic),
            x + split_step(st, l, atomic).blocks,
        ),
{
    let b = BlockModel { text: l, atomic: true, frontmatter: false };
    assert(flush(x + st.blocks, st.cur) =~= x + flush(st.blocks, st.cur));
    assert(flush(x + st.blocks, st.cur).push(b) =~= x + flush(st.blocks, st.cur).push(b));
}

/// Finished blocks in front of a split state stay in front, untouched.
proof fn lemma_run_shift(ls: Seq<Seq<char>>, st: SplitState, x: Seq<BlockModel>, atomic: spec_fn(Seq<char>) -> bool)
    ensures
        split_run(ls, with_blocks(st, x + st.blocks), atomic) == with_blocks(
            split_run(ls, st, atomic),
            x + split_run(ls, st, atomic).blocks,
        ),
    decreases ls.len(),
{
    if ls.len() > 0 {
        lemma_run_shift(ls.drop_last(), st, x, atomic);
        lemma_step_shift(split_run(ls.drop_last(), st, atomic), ls.last(), x, atomic);
    }
}

/// At a block boundary a non-blank line starts afresh: the block being built
/// is finished first.
proof fn lemma_restart(st: SplitState, l: Seq<char>, atomic: spec_fn(Seq<char>) -> bool)
    requires
        st.fence is None,
        st.closed || st.cur.len() == 0,
        !is_blank(l),
    ensures
        split_step(st, l, atomic) == split_step(fresh_with(flush(st.blocks, st.cur)), l, atomic),
{
    if st.cur.len() == 0 {
        assert(st.cur =~= Seq::<char>::empty());
        assert(st.cur + l =~= l);
    }
    assert(Seq::<char>::empty() + l =~= l);
}

/// Lines starting with a non-blank one, read at a block boundary, split as
/// they would on their own, after the block being built is finished.
proof fn lemma_run_from_boundary(st: SplitState, ls: Seq<Seq<char>>, atomic: spec_fn(Seq<char>) -> bool)
    requires
        st.fence is None,
        st.closed || st.cur.len() == 0,
        ls.len() > 0,
        !is_blank(ls[0]),
    ensures
        split_run(ls, st, atomic) == with_blocks(
            split_run(ls, empty_state(), atomic),
            flush(st.blocks, st.cur) + split_run(ls, empty_state(), atomic).blocks,
        ),
{
    let f = flush(st.blocks, st.cur);
    let fw = fresh_with(f);
    let rest = ls.skip(1);
    assert(ls =~= seq![ls[0]] + rest);
    lemma_run_append(seq![ls[0]], rest, st, atomic);
    lemma_run_append(seq![ls[0]], rest, fw, atomic);
    lemma_run_single(ls[0], st, atomic);
    lemma_run_single(ls[0], fw, atomic);
    lemma_restart(st, ls[0], atomic);
    assert(empty_state().blocks =~= Seq::<BlockModel>::empty());
    assert(f + empty_state().blocks =~= f);
    assert(with_blocks(empty_state(), f + empty_state().blocks) == fw);
    lemma_run_shift(ls, empty_state(), f, atomic);
}

/// A part of a normalized body: non-blank, without trailing line breaks, its
/// first line non-blank, and splitting it (with a line break after it) on its
/// own gives either one atomic block or a block still being built, with no
/// fence left open unless it is the last part.
pub open spec fn part_ok(q: Seq<char>, atomic: spec_fn(Seq<char>) -> bool, last: bool) -> bool {
    let qn = q.push('\n');
    let r = split_run(lines(qn), empty_state(), atomic);
    &&& !is_blank(q)
    &&& trim_newlines_end(q) == q
    &&& lines(qn).len() > 0
    &&& !is_blank(lines(qn)[0])
    &&& ((r.blocks.len() == 0 && r.cur == qn && (last || r.fence is None)) || r == SplitState {
        blocks: seq![BlockModel { text: qn, atomic: true, frontmatter: false }],
        cur: Seq::empty(),
        fence: None,
        closed: false,
    })
}

/// The normalized body made of `parts`.
pub open spec fn rbody(parts: Seq<Seq<char>>) -> Seq<char> {
    join_with(parts, para_sep()).push('\n')
}

proof fn lemma_norm_flush_nl(bs: Seq<BlockModel>, c: Seq<char>)
    ensures
        norm_parts(flush(bs, c.push('\n'))) == norm_parts(flush(bs, c)),
{
    let b = plain(c.push('\n'));
    assert(bs.push(b).drop_last() =~= bs);
    if c.len() == 0 {
        assert(c.push('\n') =~= seq!['\n']);
        assert(seq!['\n'].drop_last() =~= Seq::<char>::empty());
        assert(seq!['\n'].last() == '\n');
        assert(trim_newlines_end(Seq::<char>::empty()) == Seq::<char>::empty());
        assert(trim_newlines_end(seq!['\n']) == Seq::<char>::empty());
        assert(is_blank(Seq::<char>::empty()));
    } else {
        assert(bs.push(plain(c)).drop_last() =~= bs);
        assert(c.push('\n') =~= c + seq!['\n']);
        assert forall|i: int| 0 <= i < 1 implies is_nl(#[trigger] seq!['\n'][i]) by {}
        lemma_trim_nl_append(c, seq!['\n']);
    }
}

proof fn lemma_norm_part_tail(f: Seq<BlockModel>, q: Seq<char>, atomic: spec_fn(Seq<char>) -> bool, last: bool)
    requires
        part_ok(q, atomic, last),
    ensures
        ({
            let r = split_run(lines(q.push('\n')), empty_state(), atomic);
            norm_parts(flush(f + r.blocks, r.cur)) == norm_parts(f).push(q)
        }),
{
    let qn = q.push('\n');
    let r = split_run(lines(qn), empty_state(), atomic);
    assert(qn =~= q + seq!['\n']);
    assert forall|i: int| 0 <= i < 1 implies is_nl(#[trigger] seq!['\n'][i]) by {}
    lemma_trim_nl_append(q, seq!['\n']);
    if r.blocks.len() == 0 {
        assert(f + r.blocks =~= f);
        assert(f.push(plain(qn)).drop_last() =~= f);
    } else {
        let ab = BlockModel { text: qn, atomic: true, frontmatter: false };
        assert(f + r.blocks =~= f.push(ab));
        assert(f.push(ab).drop_last() =~= f);
    }
}

/// Splitting a normalized body built from good parts gives back exactly those
/// parts, after the blocks it started from.
proof fn lemma_rbody(parts: Seq<Seq<char>>, b: Seq<BlockModel>, atomic: spec_fn(Seq<char>) -> bool, last: bool)
    requires
        parts.len() > 0,
        forall|k: int| 0 <= k < parts.len() - 1 ==> part_ok(#[trigger] parts[k], atomic, false),
        part_ok(parts.last(), atomic, last),
    ensures
        ({
            let st = split_run(lines(rbody(parts)), fresh_with(b), atomic);
            &&& norm_parts(flush(st.blocks, st.cur)) == norm_parts(b) + parts
            &&& last || st.fence is None
        }),
    decreases parts.len(),
{
    let q = parts.last();
    let qn = q.push('\n');
    let r = split_run(lines(qn), empty_state(), atomic);
    if parts.len() == 1 {
        assert(rbody(parts) == qn);
        assert(empty_state().blocks + Seq::<BlockModel>::empty() =~= Seq::<BlockModel>::empty());
        assert(with_blocks(empty_state(), b + empty_state().blocks) == fresh_with(b)) by {
            assert(b + empty_state().blocks =~= b);
        }
        lemma_run_shift(lines(qn), empty_state(), b, atomic);
        lemma_norm_part_tail(b, q, atomic, last);
        assert(norm_parts(b) + parts =~= norm_parts(b).push(q));
    } else {
        let pp = parts.drop_last();
        assert forall|k: int| 0 <= k < pp.len() - 1 implies part_ok(#[trigger] pp[k], atomic, false) by {
            assert(pp[k] == parts[k]);
        }
        assert(pp.last() == parts[parts.len() - 2]);
        lemma_rbody(pp, b, atomic, false);
        let rb = rbody(pp);
        assert(join_with(parts, para_sep()) == join_with(pp, para_sep()) + para_sep() + q);
        let nl = seq!['\n'];
        assert(rbody(parts) =~= rb + (nl + qn));
        lemma_lines_append(rb, nl + qn);
        lemma_lines_append(nl, qn);
        assert(single_line(nl));
        lemma_lines_single(nl);
        let st0 = split_run(lines(rb), fresh_with(b), atomic);
        lemma_run_append(lines(rb), lines(nl) + lines(qn), fresh_with(b), atomic);
        lemma_run_append(lines(nl), lines(qn), st0, atomic);
        lemma_run_single(nl, st0, atomic);
        assert(is_blank(nl));
        let st1 = split_step(st0, nl, atomic);
        assert(st1.fence is None && st1.closed);
        assert(st1.cur == st0.cur.push('\n'));
        assert(st1.blocks == st0.blocks);
        lemma_run_from_boundary(st1, lines(qn), atomic);
        let f = flush(st1.blocks, st1.cur);
        lemma_norm_flush_nl(st0.blocks, st0.cur);
        lemma_norm_part_tail(f, q, atomic, last);
        assert(lines(rbody(parts)) =~= lines(rb) + (lines(nl) + lines(qn)));
        assert(norm_parts(b) + parts =~= (norm_parts(b) + pp).push(q));
    }
}

// ---------------------------------------------------------------------------
// The parts of a split document
// ---------------------------------------------------------------------------

proof fn lemma_blank_flatten(ls: Seq<Seq<char>>)
    requires
        forall|k: int| 0 <= k < ls.len() ==> is_blank(#[trigger] ls[k]),
    ensures
        is_blank(ls.flatten()),
    decreases ls.len(),
{
    if ls.len() > 0 {
        assert forall|k: int| 0 <= k < ls.drop_last().len() implies is_blank(
            #[trigger] ls.drop_last()[k],
        ) by {
            assert(ls.drop_last()[k] == ls[k]);
        }
        lemma_blank_flatten(ls.drop_last());
        ls.drop_last().lemma_flatten_push(ls.last());
        assert(ls.drop_last().push(ls.last()) =~= ls);
        assert(is_blank(ls[ls.len() - 1]));
        lemma_blank_append(ls.drop_last().flatten(), ls.last());
    }
}

/// A block that opens with a blank line is blank throughout: once a blank
/// line has been read, the next non-blank line would start a new block.
proof fn lemma_seg_first_line(ls: Seq<Seq<char>>, atomic: spec_fn(Seq<char>) -> bool)
    requires
        split_run(ls, empty_state(), atomic).blocks.len() == 0,
        forall|k: int| 0 <= k < ls.len() ==> single_line(#[trigger] ls[k]),
        ls.len() > 0,
        is_blank(ls[0]),
    ensures
        forall|k: int| 0 <= k < ls.len() ==> is_blank(#[trigger] ls[k]),
        split_run(ls, empty_state(), atomic).fence is None,
        split_run(ls, empty_state(), atomic).closed,
        split_run(ls, empty_state(), atomic).cur.len() > 0,
    decreases ls.len(),
{
    let fresh = empty_state();
    let last = ls.last();
    assert(single_line(ls[ls.len() - 1]));
    if ls.len() == 1 {
        lemma_run_single(ls[0], fresh, atomic);
        assert(ls =~= seq![ls[0]]);
    } else {
        let dl = ls.drop_last();
        let prev = split_run(dl, fresh, atomic);
        assert(ls =~= dl + seq![last]);
        lemma_run_append(dl, seq![last], fresh, atomic);
        lemma_run_single(last, prev, atomic);
        assert(single_line(last));
        lemma_run_shape(seq![last], prev, atomic);
        assert forall|k: int| 0 <= k < dl.len() implies single_line(#[trigger] dl[k]) by {
            assert(dl[k] == ls[k]);
        }
        assert(dl[0] == ls[0]);
        lemma_seg_first_line(dl, atomic);
        if !is_blank(last) {
            assert(flush(prev.blocks, prev.cur).len() == 1);
        }
        assert forall|k: int| 0 <= k < ls.len() implies is_blank(#[trigger] ls[k]) by {
            if k < dl.len() {
                assert(ls[k] == dl[k]);
            }
        }
    }
}

/// A block of a document that splits cleanly: non-empty and, when not
/// atomic, splitting into no finished block (with no fence left open unless
/// `last`); an atomic one is a non-blank line whose content is atomic and
/// does not open a fence; and no two `\r` follow each other in it.
pub open spec fn clean_block(b: BlockModel, atomic: spec_fn(Seq<char>) -> bool, last: bool) -> bool {
    let r = split_run(lines(b.text), empty_state(), atomic);
    &&& no_double_cr(b.text)
    &&& if b.atomic {
        single_line(b.text) && !is_blank(b.text) && atomic(trim_line_end(b.text))
            && spec_open_fence(trim_line_end(b.text)) is None
    } else {
        b.text.len() > 0 && r.blocks.len() == 0 && (last || r.fence is None)
    }
}

proof fn lemma_block_part(b: BlockModel, atomic: spec_fn(Seq<char>) -> bool, last: bool)
    requires
        clean_block(b, atomic, last),
        !is_blank(trim_newlines_end(b.text)),
    ensures
        part_ok(trim_newlines_end(b.text), atomic, last),
{
    let t = b.text;
    let q = trim_newlines_end(t);
    lemma_trim_nl_shape(t);
    assert(trim_newlines_end(q) == q);
    if b.atomic {
        lemma_part_atomic(t, atomic);
    } else {
        lemma_part_seg(t, atomic);
        lemma_lines_shape(t);
        if is_blank(lines(t)[0]) {
            lemma_seg_first_line(lines(t), atomic);
            lemma_blank_flatten(lines(t));
            lemma_lines_flatten(t);
            assert(t =~= q + t.skip(q.len() as int));
            lemma_blank_append(q, t.skip(q.len() as int));
        }
    }
}

/// The parts of cleanly split blocks are good parts.
proof fn lemma_parts_ok(bs: Seq<BlockModel>, atomic: spec_fn(Seq<char>) -> bool, last: bool)
    requires
        forall|i: int| 0 <= i < bs.len() - 1 ==> clean_block(#[trigger] bs[i], atomic, false),
        bs.len() > 0 ==> clean_block(bs.last(), atomic, last),
    ensures
        forall|k: int| 0 <= k < norm_parts(bs).len() - 1 ==> part_ok(#[trigger] norm_parts(bs)[k], atomic, false),
        norm_parts(bs).len() > 0 ==> part_ok(norm_parts(bs).last(), atomic, last),
    decreases bs.len(),
{
    if bs.len() > 0 {
        let dl = bs.drop_last();
        assert forall|i: int| 0 <= i < dl.len() - 1 implies clean_block(#[trigger] dl[i], atomic, false) by {
            assert(dl[i] == bs[i]);
        }
        if dl.len() > 0 {
            assert(dl.last() == bs[bs.len() - 2]);
        }
        lemma_parts_ok(dl, atomic, false);
        let p = norm_parts(dl);
        let t = trim_newlines_end(bs.last().text);
        if !is_blank(t) {
            lemma_block_part(bs.last(), atomic, last);
            assert(norm_parts(bs) == p.push(t));
            assert forall|k: int| 0 <= k < norm_parts(bs).len() - 1 implies part_ok(
                #[trigger] norm_parts(bs)[k],
                atomic,
                false,
            ) by {
                assert(norm_parts(bs)[k] == p[k]);
            }
        }
    }
}

proof fn lemma_no_double_cr_append(a: Seq<char>, b: Seq<char>)
    requires
        no_double_cr(a + b),
    ensures
        no_double_cr(a),
        no_double_cr(b),
{
    assert forall|i: int| 0 <= i < a.len() - 1 implies !(#[trigger] a[i] == '\r' && a[i + 1] == '\r') by {
        assert((a + b)[i] == a[i]);
        assert((a + b)[i + 1] == a[i + 1]);
    }
    assert forall|i: int| 0 <= i < b.len() - 1 implies !(#[trigger] b[i] == '\r' && b[i + 1] == '\r') by {
        assert((a + b)[a.len() + i] == b[i]);
        assert((a + b)[a.len() + i + 1] == b[i + 1]);
    }
}

proof fn lemma_no_double_cr_join(bs: Seq<BlockModel>)
    requires
        no_double_cr(spec_join(bs)),
    ensures
        forall|i: int| 0 <= i < bs.len() ==> no_double_cr(#[trigger] bs[i].text),
    decreases bs.len(),
{
    if bs.len() > 0 {
        lemma_no_double_cr_append(spec_join(bs.drop_last()), bs.last().text);
        lemma_no_double_cr_join(bs.drop_last());
        assert forall|i: int| 0 <= i < bs.len() implies no_double_cr(#[trigger] bs[i].text) by {
            if i < bs.len() - 1 {
                assert(bs[i] == bs.drop_last()[i]);
            }
        }
    }
}

/// No atomic block of the split of `md` is a line that would open a fence.
pub open spec fn atomic_lines_not_fences(md: Seq<char>, atomic: spec_fn(Seq<char>) -> bool) -> bool {
    forall|i: int|
        0 <= i < spec_split(md, atomic).len() && (#[trigger] spec_split(md, atomic)[i]).atomic
            ==> spec_open_fence(trim_line_end(spec_split(md, atomic)[i].text)) is None
}

/// The blocks after the frontmatter block split cleanly.
proof fn lemma_split_clean(md: Seq<char>, atomic: spec_fn(Seq<char>) -> bool)
    requires
        no_double_cr(md),
        atomic_lines_not_fences(md, atomic),
    ensures
        ({
            let bs = spec_split(md, atomic);
            let n0 = split_init(md).blocks.len() as int;
            &&& n0 <= bs.len()
            &&& forall|i: int| n0 <= i < bs.len() - 1 ==> clean_block(#[trigger] bs[i], atomic, false)
            &&& bs.len() > n0 ==> clean_block(bs.last(), atomic, true)
        }),
{
    let body = split_body(md);
    let init = split_init(md);
    let bs = spec_split(md, atomic);
    lemma_lines_shape(body);
    lemma_lines_nl(body);
    assert(init.cur.len() == 0);
    lemma_run_inv(lines(body), init, atomic);
    let st = split_run(lines(body), init, atomic);
    lemma_split_join_roundtrip(md, atomic);
    lemma_no_double_cr_join(bs);
    let n0 = init.blocks.len() as int;
    let m = st.blocks.len() as int;
    assert forall|i: int| n0 <= i < m implies clean_block(#[trigger] bs[i], atomic, false) by {
        assert(bs[i] == st.blocks[i]);
        assert(good_block(st.blocks[i], atomic));
        assert(no_double_cr(bs[i].text));
    }
    if st.cur.len() > 0 {
        assert(bs.len() == m + 1);
        assert(bs[m] == plain(st.cur));
        assert(no_double_cr(bs[m].text));
        assert(bs.last() == bs[m]);
    }
}

proof fn lemma_join_with_head(parts: Seq<Seq<char>>)
    requires
        parts.len() > 0,
    ensures
        join_with(parts, para_sep()).len() >= parts[0].len(),
        join_with(parts, para_sep()).take(parts[0].len() as int) == parts[0],
        parts.len() > 1 ==> join_with(parts, para_sep()).len() > parts[0].len()
            && join_with(parts, para_sep())[parts[0].len() as int] == '\n',
    decreases parts.len(),
{
    let n = parts[0].len() as int;
    if parts.len() == 1 {
        assert(parts[0].take(n) =~= parts[0]);
    } else {
        let dl = parts.drop_last();
        assert(dl[0] == parts[0]);
        lemma_join_with_head(dl);
        let j = join_with(dl, para_sep());
        let full = j + para_sep() + parts.last();
        assert(join_with(parts, para_sep()) == full);
        assert(full.take(n) =~= j.take(n));
        if dl.len() == 1 {
            assert(j == parts[0]);
            assert(full[n] == para_sep()[0]);
        } else {
            assert(full[n] == j[n]);
        }
    }
}

proof fn lemma_rbody_first_line(parts: Seq<Seq<char>>)
    requires
        parts.len() > 0,
    ensures
        lines(rbody(parts)).len() > 0,
        lines(parts[0].push('\n')).len() > 0,
        lines(rbody(parts))[0] == lines(parts[0].push('\n'))[0],
{
    lemma_join_with_head(parts);
    let x = rbody(parts);
    let n = parts[0].len() as int;
    let h = parts[0].push('\n');
    assert(x.take(n + 1) =~= h);
    assert(x =~= h + x.skip(n + 1));
    lemma_lines_append(h, x.skip(n + 1));
    lemma_lines_nl(h);
}

/// For a document without frontmatter, normalizing twice is normalizing
/// once.
proof fn lemma_idempotent_plain(md: Seq<char>, atomic: spec_fn(Seq<char>) -> bool)
    requires
        no_double_cr(md),
        atomic_lines_not_fences(md, atomic),
        fm_chars(md) is None,
    ensures
        spec_rejoin(spec_split(spec_rejoin(spec_split(md, atomic)), atomic)) == spec_rejoin(
            spec_split(md, atomic),
        ),
{
    let bs = spec_split(md, atomic);
    lemma_split_shape(md, atomic);
    lemma_split_clean(md, atomic);
    assert(split_init(md) == empty_state());
    lemma_parts_ok(bs, atomic, true);
    let ps = norm_parts(bs);
    if bs.len() > 0 {
        assert(!bs[0].frontmatter);
    }
    let r = spec_rejoin(bs);
    if ps.len() == 0 {
        assert(r == Seq::<char>::empty());
        assert(lines(Seq::<char>::empty()).len() == 0);
        assert(split_run(Seq::<Seq<char>>::empty(), empty_state(), atomic) == empty_state());
        assert(spec_split(r, atomic) == Seq::<BlockModel>::empty());
        assert(norm_parts(Seq::<BlockModel>::empty()).len() == 0);
    } else {
        let rb = rbody(ps);
        assert(spec_rejoin_raw(bs) == rb);
        lemma_rbody_first_line(ps);
        assert(part_ok(ps[0], atomic, true)) by {
            if ps.len() > 1 {
                assert(part_ok(ps[0], atomic, false));
            }
        }
        if fm_chars(rb) is None {
            assert(r == rb);
            assert(split_init(r) == empty_state());
            assert(empty_state() == fresh_with(Seq::<BlockModel>::empty()));
            lemma_rbody(ps, Seq::<BlockModel>::empty(), atomic, true);
            lemma_split_shape(r, atomic);
            let bs2 = spec_split(r, atomic);
            assert(Seq::<Seq<char>>::empty() + ps =~= ps);
            if bs2.len() > 0 {
                assert(!bs2[0].frontmatter);
            }
            assert(spec_rejoin_raw(bs2) == rb);
        } else {
            let nl = seq!['\n'];
            assert(r == nl + rb);
            // The leading blank line keeps `r` from reading as frontmatter.
            lemma_line_len(r);
            assert(r[0] == '\n');
            assert(line_len(r) == 1);
            assert(r.take(1) =~= nl);
            assert(nl.drop_last() =~= Seq::<char>::empty());
            assert(trim_line_end(nl) =~= Seq::<char>::empty());
            assert(trim_line_end(r.take(line_len(r) as int)) != dashes()) by {
                assert(dashes().len() == 3);
            }
            assert(fm_chars(r) is None);
            assert(split_init(r) == empty_state());
            assert(split_body(r) == r);
            assert(single_line(nl));
            lemma_lines_single(nl);
            lemma_lines_append(nl, rb);
            let fresh = empty_state();
            lemma_run_append(seq![nl], lines(rb), fresh, atomic);
            lemma_run_single(nl, fresh, atomic);
            assert(forall|j: int| 0 <= j < nl.len() ==> is_ws(#[trigger] nl[j]));
            let st1 = split_step(fresh, nl, atomic);
            assert(st1.fence is None && st1.closed);
            lemma_run_from_boundary(st1, lines(rb), atomic);
            let f = flush(st1.blocks, st1.cur);
            assert(st1.cur =~= nl);
            assert(f =~= seq![plain(nl)]);
            lemma_run_shift(lines(rb), fresh, f, atomic);
            assert(f + fresh.blocks =~= f);
            lemma_rbody(ps, f, atomic, true);
            assert(norm_parts(f) == Seq::<Seq<char>>::empty()) by {
                assert(f.drop_last() =~= Seq::<BlockModel>::empty());
                assert(f.last() == plain(nl));
                assert(nl.last() == '\n');
                assert(trim_newlines_end(Seq::<char>::empty()) == Seq::<char>::empty());
                assert(trim_newlines_end(nl) == Seq::<char>::empty());
                assert(is_blank(Seq::<char>::empty()));
                assert(norm_parts(Seq::<BlockModel>::empty()) == Seq::<Seq<char>>::empty());
            }
            assert(Seq::<Seq<char>>::empty() + ps =~= ps);
            lemma_split_shape(r, atomic);
            let bs2 = spec_split(r, atomic);
            assert(lines(r) =~= seq![nl] + lines(rb));
            if bs2.len() > 0 {
                assert(!bs2[0].frontmatter);
            }
            assert(spec_rejoin_raw(bs2) == rb);
        }
    }
}

// ---------------------------------------------------------------------------
// The frontmatter block of a normalized body
// ---------------------------------------------------------------------------

/// Where the line that closes a frontmatter run starts in `s` (the text
/// after the opening line).
pub open spec fn fm_close_start(s: Seq<char>) -> nat
    decreases s.len(),
{
    if s.len() == 0 {
        0
    } else {
        proof {
            lemma_line_len(s);
        }
        let k = line_len(s);
        let c = trim_line_end(s.take(k as int));
        if c == dashes() || c == dots() {
            0
        } else {
            k + fm_close_start(s.skip(k as int))
        }
    }
}

/// The closing line of a frontmatter run: it starts at [`fm_close_start`],
/// ends where the run ends, reads `---` or `...`, and a line break comes
/// before it.
proof fn lemma_fm_close_line(s: Seq<char>)
    requires
        fm_close(s) is Some,
    ensures
        ({
            let m = fm_close(s)->0 as int;
            let a = fm_close_start(s) as int;
            &&& a < m <= s.len()
            &&& line_len(s.skip(a)) == m - a
            &&& (trim_line_end(s.subrange(a, m)) == dashes() || trim_line_end(s.subrange(a, m))
                == dots())
            &&& a > 0 ==> s[a - 1] == '\n'
        }),
    decreases s.len(),
{
    lemma_line_len(s);
    let k = line_len(s) as int;
    let c = trim_line_end(s.take(k));
    if c == dashes() || c == dots() {
        assert(s.skip(0) =~= s);
        assert(s.subrange(0, k) =~= s.take(k));
    } else {
        let r = s.skip(k);
        lemma_fm_close_line(r);
        let a2 = fm_close_start(r) as int;
        let m2 = fm_close(r)->0 as int;
        assert(r.skip(a2) =~= s.skip(k + a2));
        assert(r.subrange(a2, m2) =~= s.subrange(k + a2, k + m2));
        if a2 > 0 {
            assert(r[a2 - 1] == s[k + a2 - 1]);
        } else {
            assert(r.len() > 0);
            assert(s[k - 1] == '\n');
        }
    }
}

/// Replacing the closing line of a frontmatter run by another closing line
/// that ends in a line break, and whatever follows, closes the run there.
proof fn lemma_fm_close_replace(s: Seq<char>, cl: Seq<char>, t: Seq<char>)
    requires
        fm_close(s) is Some,
        single_line(cl),
        cl.last() == '\n',
        trim_line_end(cl) == dashes() || trim_line_end(cl) == dots(),
    ensures
        fm_close(s.take(fm_close_start(s) as int) + cl + t) == Some(
            (fm_close_start(s) + cl.len()) as nat,
        ),
    decreases s.len(),
{
    lemma_line_len(s);
    let k = line_len(s) as int;
    let c = trim_line_end(s.take(k));
    let a = fm_close_start(s) as int;
    let u = s.take(a) + cl + t;
    lemma_lines_single(cl);
    lemma_line_len(cl);
    if c == dashes() || c == dots() {
        assert(u =~= cl + t);
        assert(u.take(cl.len() as int) =~= cl.take(cl.len() as int));
        assert(line_len(cl) == cl.len()) by {
            if line_len(cl) < cl.len() {
                assert(cl[line_len(cl) - 1] == '\n');
            }
        }
        lemma_line_len_shared(cl, u);
        assert(cl.take(cl.len() as int) =~= cl);
    } else {
        let r = s.skip(k);
        lemma_fm_close_line(r);
        assert(r.len() > 0);
        assert(s[k - 1] == '\n');
        lemma_fm_close_replace(r, cl, t);
        let a2 = fm_close_start(r) as int;
        assert(a == k + a2);
        assert(u =~= s.take(k) + (r.take(a2) + cl + t));
        assert(u.take(k) =~= s.take(k));
        lemma_line_len_shared(s, u);
        lemma_line_len(u);
        assert(u.skip(k) =~= r.take(a2) + cl + t);
    }
}

/// Whole blank lines in front add their length to the blank prefix.
proof fn lemma_blank_prefix_append(a: Seq<char>, b: Seq<char>)
    requires
        is_blank(a),
        a.len() == 0 || a.last() == '\n',
    ensures
        blank_prefix(a + b) == a.len() + blank_prefix(b),
    decreases a.len(),
{
    if a.len() == 0 {
        assert(a + b =~= b);
    } else {
        lemma_line_len(a);
        let k = line_len(a) as int;
        assert(a[k - 1] == '\n');
        assert((a + b).take(k) =~= a.take(k));
        lemma_line_len_shared(a, a + b);
        assert(is_blank(a.take(k))) by {
            assert forall|i: int| 0 <= i < k implies is_ws(#[trigger] a.take(k)[i]) by {
                assert(a.take(k)[i] == a[i]);
            }
        }
        assert((a + b).skip(k) =~= a.skip(k) + b);
        assert(is_blank(a.skip(k))) by {
            assert forall|i: int| 0 <= i < a.skip(k).len() implies is_ws(#[trigger] a.skip(k)[i]) by {
                assert(a.skip(k)[i] == a[k + i]);
            }
        }
        if a.skip(k).len() > 0 {
            assert(a.skip(k).last() == a.last());
        }
        lemma_blank_prefix_append(a.skip(k), b);
    }
}

/// The blank prefix is made of whole blank lines.
proof fn lemma_blank_prefix_blank(s: Seq<char>)
    ensures
        is_blank(s.take(blank_prefix(s) as int)),
    decreases s.len(),
{
    lemma_blank_prefix_bound(s);
    if s.len() > 0 {
        lemma_line_len(s);
        let k = line_len(s) as int;
        if is_blank(s.take(k)) {
            lemma_blank_prefix_blank(s.skip(k));
            let n = blank_prefix(s.skip(k)) as int;
            lemma_blank_prefix_bound(s.skip(k));
            assert(s.take(k + n) =~= s.take(k) + s.skip(k).take(n));
            lemma_blank_append(s.take(k), s.skip(k).take(n));
        } else {
            assert(s.take(0) =~= Seq::<char>::empty());
        }
    } else {
        assert(s.take(0) =~= Seq::<char>::empty());
    }
}

/// A line's content is a prefix of the line, followed by nothing, `\n`,
/// `\r` or `\r\n`.
proof fn lemma_trim_line_end_shape(x: Seq<char>)
    ensures
        ({
            let t = trim_line_end(x);
            let e = x.skip(t.len() as int);
            &&& t.len() <= x.len()
            &&& x.take(t.len() as int) == t
            &&& (e == Seq::<char>::empty() || e == seq!['\n'] || e == seq!['\r'] || e == seq![
                '\r',
                '\n',
            ])
        }),
{
    let t = trim_line_end(x);
    if x.len() > 0 && x.last() == '\n' {
        let a = x.drop_last();
        if a.len() > 0 && a.last() == '\r' {
            assert(x.take(t.len() as int) =~= t);
            assert(x.skip(t.len() as int) =~= seq!['\r', '\n']);
        } else {
            assert(x.take(t.len() as int) =~= t);
            assert(x.skip(t.len() as int) =~= seq!['\n']);
        }
    } else {
        if x.len() > 0 && x.last() == '\r' {
            assert(x.take(t.len() as int) =~= t);
            assert(x.skip(t.len() as int) =~= seq!['\r']);
        } else {
            assert(x.take(t.len() as int) =~= t);
            assert(x.skip(t.len() as int) =~= Seq::<char>::empty());
        }
    }
}

/// The closing content, then the first line of what follows it, is a closing
/// line ending in a line break.
proof fn lemma_closing_line(c: Seq<char>, y: Seq<char>, e: Seq<char>)
    requires
        c == dashes() || c == dots(),
        y == seq!['\n'] || ((e == seq!['\n'] || e == seq!['\r', '\n']) && e.len() <= y.len()
            && y.take(e.len() as int) == e),
    ensures
        line_len(y) <= y.len(),
        single_line(c + y.take(line_len(y) as int)),
        (c + y.take(line_len(y) as int)).last() == '\n',
        trim_line_end(c + y.take(line_len(y) as int)) == c,
{
    lemma_line_len(y);
    let yl = line_len(y) as int;
    if y == seq!['\n'] {
        assert(yl == 1);
        assert(y.take(yl) =~= seq!['\n']);
    } else {
        lemma_line_len(e);
        assert(line_len(e) == e.len()) by {
            if e.len() == 2 {
                assert(e[0] == '\r');
            }
        }
        assert(e.take(e.len() as int) =~= e);
        lemma_line_len_shared(e, y);
        assert(y.take(yl) =~= e);
    }
    let cl = c + y.take(yl);
    assert(c.last() != '\r' && c.last() != '\n');
    if y.take(yl).len() == 1 {
        assert(y.take(yl) =~= seq!['\n']);
        assert(cl.drop_last() =~= c);
    } else {
        assert(y.take(yl) =~= seq!['\r', '\n']);
        assert(cl.drop_last() =~= c.push('\r'));
        assert(c.push('\r').drop_last() =~= c);
    }
    assert forall|q: int| 0 <= q < cl.len() - 1 implies cl[q] != '\n' by {
        if q < 3 {
            assert(cl[q] == c[q]);
        } else {
            assert(cl[q] == y.take(yl)[q - 3]);
        }
    }
}

/// Where the closing line of `md`'s frontmatter starts, and the run's end.
pub open spec fn fm_closer_start(md: Seq<char>) -> int {
    (line_len(md) + fm_close_start(md.skip(line_len(md) as int))) as int
}

/// Trimming the frontmatter block keeps the run up to and including the
/// closing content, and leaves only blank text after it.
#[verifier::spinoff_prover]
#[verifier::rlimit(50)]
proof fn lemma_fm_head_parts(md: Seq<char>)
    requires
        fm_chars(md) is Some,
    ensures
        ({
            let cs = fm_closer_start(md);
            let n = fm_chars(md)->0 as int;
            let x = md.subrange(cs, n);
            let c = trim_line_end(x);
            let e = x.skip(3);
            let g = trim_newlines_end(md.take(fm_block_len(md)->0 as int)).push('\n');
            let y = g.skip(cs + 3);
            &&& line_len(md) <= cs
            &&& cs + 3 <= g.len()
            &&& 0 < line_len(md) < md.len()
            &&& md[line_len(md) - 1] == '\n'
            &&& (c == dashes() || c == dots())
            &&& g.take(cs) == md.take(cs)
            &&& g.subrange(cs, cs + 3) == c
            &&& is_blank(y)
            &&& y == seq!['\n'] || ((e == seq!['\n'] || e == seq!['\r', '\n']) && e.len()
                <= y.len() && y.take(e.len() as int) == e)
        }),
{
    lemma_fm_chars_bound(md);
    lemma_line_len(md);
    let k0 = line_len(md) as int;
    let s = md.skip(k0);
    let m = fm_close(s)->0 as int;
    let n = k0 + m;
    lemma_fm_close_bound(s);
    lemma_fm_close_line(s);
    let a = fm_close_start(s) as int;
    let cs = k0 + a;
    let x = s.subrange(a, m);
    assert(x =~= md.subrange(cs, n));
    let c = trim_line_end(x);
    assert(c.len() == 3);
    lemma_trim_line_end_shape(x);
    let e = x.skip(3);
    let j = cs + 3;
    let bp = blank_prefix(md.skip(n));
    lemma_blank_prefix_bound(md.skip(n));
    let l = n + bp;
    let f = md.take(l);
    let head = trim_newlines_end(f);
    let h = head.len() as int;
    let g = head.push('\n');
    lemma_trim_nl_shape(f);
    assert(s.len() > 0);
    assert(md[k0 - 1] == '\n');
    assert(md[j - 1] == c[2]) by {
        assert(x.take(3)[2] == x[2]);
    }
    assert(f[j - 1] == md[j - 1]);
    assert(!is_nl(f[j - 1]));
    assert(h >= j);
    assert(g.take(cs) =~= md.take(cs));
    assert(g.subrange(cs, j) =~= c) by {
        assert forall|q: int| 0 <= q < 3 implies g.subrange(cs, j)[q] == c[q] by {
            assert(g.subrange(cs, j)[q] == md[cs + q]);
            assert(x.take(3)[q] == x[q]);
        }
    }
    let y = g.skip(j);
    assert(y =~= f.subrange(j, h).push('\n'));
    lemma_blank_prefix_blank(md.skip(n));
    assert(is_blank(y)) by {
        assert forall|q: int| 0 <= q < y.len() implies is_ws(#[trigger] y[q]) by {
            if q < h - j {
                let pos = j + q;
                assert(y[q] == f[pos]);
                if pos < n {
                    assert(f[pos] == x[pos - cs]);
                    assert(x[pos - cs] == e[pos - cs - 3]);
                } else {
                    assert(f[pos] == md.skip(n).take(bp as int)[pos - n]);
                }
            }
        }
    }
    if h == j {
        assert(y =~= seq!['\n']);
    } else {
        assert(!is_nl(f[h - 1]));
        assert(h - 1 >= n) by {
            if h - 1 < n {
                assert(f[h - 1] == x[h - 1 - cs]);
                assert(x[h - 1 - cs] == e[h - 1 - cs - 3]);
            }
        }
        lemma_line_len(s.skip(a));
        assert(m < s.len());
        assert(s.skip(a)[m - a - 1] == '\n');
        assert(x.last() == '\n');
        assert(e.last() == x.last());
        assert(e == seq!['\n'] || e == seq!['\r', '\n']);
        assert(y.take(e.len() as int) =~= e) by {
            assert forall|q: int| 0 <= q < e.len() implies y.take(e.len() as int)[q] == e[q] by {
                assert(y[q] == f[j + q]);
                assert(f[j + q] == x[3 + q]);
            }
        }
    }
}

/// The kept frontmatter block of a normalized body, `head` followed by a line
/// break, is frontmatter whose run ends in a line break and is followed only
/// by blank text.
#[verifier::spinoff_prover]
#[verifier::rlimit(80)]
proof fn lemma_fm_head(md: Seq<char>)
    requires
        fm_chars(md) is Some,
    ensures
        ({
            let g = trim_newlines_end(md.take(fm_block_len(md)->0 as int)).push('\n');
            &&& fm_chars(g) is Some
            &&& g[fm_chars(g)->0 - 1] == '\n'
            &&& is_blank(g.skip(fm_chars(g)->0 as int))
        }),
{
    lemma_fm_head_parts(md);
    let k0 = line_len(md) as int;
    let s = md.skip(k0);
    let cs = fm_closer_start(md);
    let a = fm_close_start(s) as int;
    let n = fm_chars(md)->0 as int;
    let x = md.subrange(cs, n);
    let c = trim_line_end(x);
    let e = x.skip(3);
    let g = trim_newlines_end(md.take(fm_block_len(md)->0 as int)).push('\n');
    let y = g.skip(cs + 3);
    lemma_closing_line(c, y, e);
    lemma_fm_chars_bound(md);
    lemma_line_len(md);
    lemma_fm_close_bound(s);
    lemma_fm_close_line(s);
    assert(cs == k0 + a);
    assert(n == k0 + fm_close(s)->0);
    let yl = line_len(y) as int;
    let cl = c + y.take(yl);
    let ng = cs + cl.len();
    assert(g.take(k0) =~= md.take(cs).take(k0));
    assert(md.take(cs).take(k0) =~= md.take(k0));
    lemma_line_len_shared(md, g);
    let rest = g.skip(ng);
    assert(g.skip(cs) =~= c + y);
    assert(g.skip(k0) =~= s.take(a) + cl + rest) by {
        assert(g.skip(k0).take(a) =~= s.take(a)) by {
            assert forall|q: int| 0 <= q < a implies g.skip(k0).take(a)[q] == s.take(a)[q] by {
                assert(g[k0 + q] == g.take(cs)[k0 + q]);
            }
        }
        assert(g.subrange(cs, ng) =~= cl);
    }
    lemma_fm_close_replace(s, cl, rest);
    assert(fm_chars(g) == Some(ng as nat));
    assert(g[ng - 1] == cl.last());
    assert(rest =~= y.skip(yl));
    assert(is_blank(rest)) by {
        assert forall|q: int| 0 <= q < rest.len() implies is_ws(#[trigger] rest[q]) by {
            assert(rest[q] == y[yl + q]);
        }
    }
}

/// For a document with frontmatter, normalizing twice is normalizing once.
#[verifier::spinoff_prover]
#[verifier::rlimit(80)]
proof fn lemma_idempotent_fm(md: Seq<char>, atomic: spec_fn(Seq<char>) -> bool)
    requires
        no_double_cr(md),
        atomic_lines_not_fences(md, atomic),
        fm_chars(md) is Some,
    ensures
        spec_rejoin(spec_split(spec_rejoin(spec_split(md, atomic)), atomic)) == spec_rejoin(
            spec_split(md, atomic),
        ),
{
    let bs = spec_split(md, atomic);
    lemma_split_shape(md, atomic);
    lemma_split_clean(md, atomic);
    assert(split_init(md).blocks.len() == 1);
    let rest = bs.drop_first();
    assert forall|i: int| 0 <= i < rest.len() - 1 implies clean_block(#[trigger] rest[i], atomic, false) by {
        assert(rest[i] == bs[i + 1]);
    }
    if rest.len() > 0 {
        assert(rest.last() == bs.last());
        assert(!rest[0].frontmatter) by {
            assert(rest[0] == bs[1]);
        }
    }
    lemma_parts_ok(rest, atomic, true);
    let ps = norm_parts(rest);
    let fb = bs[0];
    let head = trim_newlines_end(fb.text);
    lemma_trim_nl_shape(fb.text);
    assert(trim_newlines_end(head) == head);
    let g = head.push('\n');
    lemma_fm_head(md);
    let ng = fm_chars(g)->0 as int;
    lemma_fm_chars_bound(g);
    let r = spec_rejoin(bs);
    assert(r == spec_rejoin_raw(bs));
    assert(bs.drop_first() == rest);
    let nl = seq!['\n'];
    assert forall|q: int| 0 <= q < 1 implies is_nl(#[trigger] nl[q]) by {}
    assert forall|q: int| 0 <= q < 1 implies is_ws(#[trigger] nl[q]) by {}
    let tail = if ps.len() == 0 {
        Seq::<char>::empty()
    } else {
        nl + rbody(ps)
    };
    let bt: int = if ps.len() == 0 {
        0
    } else {
        1
    };
    if ps.len() == 0 {
        assert(spec_rejoin_raw(rest) == Seq::<char>::empty());
        assert(r =~= g + tail);
    } else {
        assert(spec_rejoin_raw(rest) == rbody(ps));
        assert(r =~= g + tail);
    }
    // `r` opens with the same frontmatter block.
    lemma_frontmatter_prefix(g, g.skip(ng) + tail);
    assert(g.take(ng) + (g.skip(ng) + tail) =~= r);
    assert(fm_chars(r) == Some(ng as nat));
    assert(r.skip(ng) =~= g.skip(ng) + tail);
    if g.skip(ng).len() > 0 {
        assert(g.skip(ng).last() == g.last());
    }
    lemma_blank_prefix_append(g.skip(ng), tail);
    if ps.len() == 0 {
        assert(blank_prefix(tail) == 0);
    } else {
        let rb = rbody(ps);
        lemma_rbody_first_line(ps);
        assert(part_ok(ps[0], atomic, true)) by {
            if ps.len() > 1 {
                assert(part_ok(ps[0], atomic, false));
            }
        }
        assert(is_blank(nl));
        lemma_blank_prefix_append(nl, rb);
        lemma_line_len(rb);
        assert(lines(rb)[0] == rb.take(line_len(rb) as int));
        assert(blank_prefix(rb) == 0);
    }
    let lr = g.len() + bt;
    assert(fm_block_len(r) == Some(lr as nat));
    let fr = r.take(lr);
    let z = fr.skip(head.len() as int);
    if ps.len() == 0 {
        assert(fr =~= head + nl);
        assert(z =~= nl);
    } else {
        let nn = seq!['\n', '\n'];
        assert(fr =~= head + nn);
        assert(z =~= nn);
        assert forall|q: int| 0 <= q < 2 implies is_nl(#[trigger] nn[q]) by {}
    }
    assert forall|q: int| 0 <= q < z.len() implies is_nl(#[trigger] z[q]) by {}
    lemma_trim_nl_append(head, z);
    assert(fr =~= head + fr.skip(head.len() as int));
    assert(trim_newlines_end(fr) == head);
    let fmb = BlockModel { text: fr, atomic: false, frontmatter: true };
    assert(split_init(r).blocks == seq![fmb]);
    let bs2 = spec_split(r, atomic);
    lemma_split_shape(r, atomic);
    if ps.len() == 0 {
        assert(split_body(r) =~= Seq::<char>::empty());
        assert(lines(Seq::<char>::empty()).len() == 0);
        assert(lines(split_body(r)) =~= Seq::<Seq<char>>::empty());
        assert(bs2 =~= seq![fmb]);
        assert(seq![fmb].drop_first() =~= Seq::<BlockModel>::empty());
        assert(norm_parts(Seq::<BlockModel>::empty()).len() == 0);
        assert(bs2[0] == fmb);
        assert(bs2.drop_first() =~= Seq::<BlockModel>::empty());
        assert(spec_rejoin_raw(bs2.drop_first()) == Seq::<char>::empty());
        assert(spec_rejoin_raw(bs2) == head.push('\n'));
        assert(r == g);
        assert(spec_rejoin(bs2) == spec_rejoin_raw(bs2));
    } else {
        let rb = rbody(ps);
        assert(split_body(r) =~= rb);
        let fresh = empty_state();
        let rr = split_run(lines(rb), fresh, atomic);
        assert(split_init(r) == with_blocks(fresh, seq![fmb] + fresh.blocks)) by {
            assert(seq![fmb] + fresh.blocks =~= seq![fmb]);
        }
        lemma_run_shift(lines(rb), fresh, seq![fmb], atomic);
        assert(fresh == fresh_with(Seq::<BlockModel>::empty())) by {
            assert(fresh.blocks =~= Seq::<BlockModel>::empty());
        }
        lemma_rbody(ps, Seq::<BlockModel>::empty(), atomic, true);
        assert(Seq::<Seq<char>>::empty() + ps =~= ps);
        let b2 = flush(rr.blocks, rr.cur);
        assert(bs2 =~= seq![fmb] + b2);
        assert(bs2.drop_first() =~= b2);
        if b2.len() > 0 {
            assert(b2[0] == bs2[1]);
        }
        assert(spec_rejoin_raw(b2) == rb);
        assert(bs2[0] == fmb);
        assert(rb.len() > 0);
        assert(spec_rejoin_raw(bs2) == head + para_sep() + rb);
        assert(r =~= head + para_sep() + rb);
        assert(spec_rejoin(bs2) == spec_rejoin_raw(bs2));
    }
}

/// Normalizing is idempotent: the normalized body splits and rejoins to
/// itself. This holds for every document in which no two `\r` follow each
/// other and no atomic line would also open a code fence.
pub proof fn lemma_normalize_idempotent(md: Seq<char>, atomic: spec_fn(Seq<char>) -> bool)
    requires
        no_double_cr(md),
        atomic_lines_not_fences(md, atomic),
    ensures
        spec_rejoin(spec_split(spec_rejoin(spec_split(md, atomic)), atomic)) == spec_rejoin(
            spec_split(md, atomic),
        ),
{
    if fm_chars(md) is Some {
        lemma_idempotent_fm(md, atomic);
    } else {
        lemma_idempotent_plain(md, atomic);
    }
}

// ---------------------------------------------------------------------------
// What a split block holds
// ---------------------------------------------------------------------------

/// A block that splits on its own into no finished block, and that opens
/// with a non-blank line that opens no fence, holds no atomic line and no
/// non-blank line after a blank one; no fence is left open and the break is
/// armed exactly when its last line is blank.
#[verifier::spinoff_prover]
#[verifier::rlimit(50)]
proof fn lemma_plain_block_lines(ls: Seq<Seq<char>>, atomic: spec_fn(Seq<char>) -> bool)
    requires
        forall|k: int| 0 <= k < ls.len() ==> single_line(#[trigger] ls[k]),
        split_run(ls, empty_state(), atomic).blocks.len() == 0,
        ls.len() > 0,
        !is_blank(ls[0]),
        spec_open_fence(trim_line_end(ls[0])) is None,
    ensures
        forall|j: int| 0 <= j < ls.len() && !is_blank(#[trigger] ls[j]) ==> !atomic(trim_line_end(ls[j])),
        forall|j: int| 0 <= j < ls.len() - 1 && is_blank(#[trigger] ls[j]) ==> is_blank(ls[j + 1]),
        split_run(ls, empty_state(), atomic).fence is None,
        split_run(ls, empty_state(), atomic).closed == is_blank(ls.last()),
        split_run(ls, empty_state(), atomic).cur.len() > 0,
    decreases ls.len(),
{
    let fresh = empty_state();
    let last = ls.last();
    assert(single_line(ls[ls.len() - 1]));
    if ls.len() == 1 {
        lemma_run_single(ls[0], fresh, atomic);
        assert(ls =~= seq![ls[0]]);
        if atomic(trim_line_end(ls[0])) {
            assert(flush(fresh.blocks, fresh.cur).push(
                BlockModel { text: ls[0], atomic: true, frontmatter: false },
            ).len() == 1);
        }
    } else {
        let dl = ls.drop_last();
        let prev = split_run(dl, fresh, atomic);
        assert(ls =~= dl + seq![last]);
        lemma_run_append(dl, seq![last], fresh, atomic);
        lemma_run_single(last, prev, atomic);
        lemma_run_shape(seq![last], prev, atomic);
        assert forall|k: int| 0 <= k < dl.len() implies single_line(#[trigger] dl[k]) by {
            assert(dl[k] == ls[k]);
        }
        assert(dl[0] == ls[0]);
        lemma_plain_block_lines(dl, atomic);
        assert(dl.last() == ls[ls.len() - 2]);
        if !is_blank(last) {
            if prev.closed {
                assert(flush(prev.blocks, prev.cur).len() == 1);
            }
            if atomic(trim_line_end(last)) {
                assert(flush(prev.blocks, prev.cur).len() == 1);
            }
        }
        assert forall|j: int| 0 <= j < ls.len() && !is_blank(#[trigger] ls[j]) implies !atomic(
            trim_line_end(ls[j]),
        ) by {
            if j < dl.len() {
                assert(ls[j] == dl[j]);
            }
        }
        assert forall|j: int| 0 <= j < ls.len() - 1 && is_blank(#[trigger] ls[j]) implies is_blank(
            ls[j + 1],
        ) by {
            if j < dl.len() - 1 {
                assert(ls[j] == dl[j]);
                assert(ls[j + 1] == dl[j + 1]);
            } else {
                assert(ls[j] == dl.last());
            }
        }
    }
}

/// Where the split breaks blocks, stated on their lines: an atomic block is
/// one non-blank line whose content is atomic; any other block after the
/// frontmatter that does not open with a code fence holds no line whose
/// content is atomic and never a non-blank line after a blank one, so a
/// blank line always ends its block and an atomic line always stands alone.
#[verifier::spinoff_prover]
#[verifier::rlimit(50)]
pub proof fn lemma_split_blocks_law(md: Seq<char>, atomic: spec_fn(Seq<char>) -> bool)
    ensures
        ({
            let bs = spec_split(md, atomic);
            let n0: int = if fm_chars(md) is Some { 1 } else { 0 };
            &&& forall|i: int|
                0 <= i < bs.len() && (#[trigger] bs[i]).atomic ==> single_line(bs[i].text)
                    && !is_blank(bs[i].text) && atomic(trim_line_end(bs[i].text))
            &&& forall|i: int|
                n0 <= i < bs.len() && !(#[trigger] bs[i]).atomic && !is_blank(lines(bs[i].text)[0])
                    && spec_open_fence(trim_line_end(lines(bs[i].text)[0])) is None ==> {
                    let ls = lines(bs[i].text);
                    &&& forall|j: int|
                        0 <= j < ls.len() && !is_blank(#[trigger] ls[j]) ==> !atomic(
                            trim_line_end(ls[j]),
                        )
                    &&& forall|j: int|
                        0 <= j < ls.len() - 1 && is_blank(#[trigger] ls[j]) ==> is_blank(ls[j + 1])
                }
        }),
{
    let body = split_body(md);
    let init = split_init(md);
    let bs = spec_split(md, atomic);
    lemma_split_shape(md, atomic);
    lemma_lines_shape(body);
    lemma_lines_nl(body);
    assert(init.cur.len() == 0);
    lemma_run_inv(lines(body), init, atomic);
    let st = split_run(lines(body), init, atomic);
    let n0: int = if fm_chars(md) is Some { 1 } else { 0 };
    assert(init.blocks.len() == n0);
    let m = st.blocks.len() as int;
    assert forall|i: int| 0 <= i < bs.len() && (#[trigger] bs[i]).atomic implies single_line(
        bs[i].text,
    ) && !is_blank(bs[i].text) && atomic(trim_line_end(bs[i].text)) by {
        if i < m {
            assert(bs[i] == st.blocks[i]);
            if i < n0 {
                assert(st.blocks.take(n0)[i] == st.blocks[i]);
                assert(init.blocks[i].atomic == false);
            } else {
                assert(good_block(st.blocks[i], atomic));
            }
        } else {
            assert(bs[i] == plain(st.cur));
        }
    }
    assert forall|i: int|
        n0 <= i < bs.len() && !(#[trigger] bs[i]).atomic && !is_blank(lines(bs[i].text)[0])
            && spec_open_fence(trim_line_end(lines(bs[i].text)[0])) is None implies {
        let ls = lines(bs[i].text);
        &&& forall|j: int|
            0 <= j < ls.len() && !is_blank(#[trigger] ls[j]) ==> !atomic(trim_line_end(ls[j]))
        &&& forall|j: int| 0 <= j < ls.len() - 1 && is_blank(#[trigger] ls[j]) ==> is_blank(ls[j + 1])
    } by {
        let t = bs[i].text;
        if i < m {
            assert(bs[i] == st.blocks[i]);
            assert(good_block(st.blocks[i], atomic));
        } else {
            assert(bs[i] == plain(st.cur));
            assert(st.cur.len() > 0);
        }
        assert(split_run(lines(t), empty_state(), atomic).blocks.len() == 0);
        lemma_lines_shape(t);
        lemma_lines_nl(t);
        lemma_plain_block_lines(lines(t), atomic);
    }
}

} // verus!
