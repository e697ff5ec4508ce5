//! The lossless block model: splitting a source document into blocks
//! (frontmatter, fenced code, atomic lines, blank-line-separated runs),
//! joining them back, and the normalized rejoin used after structural edits.
use vstd::prelude::*;
use crate::text::{
    byte_offset, char_utf8_width, is_blank, is_ws, lead_ws, lemma_blank_iff_trim_empty,
    lemma_byte_offset_mono, lemma_lead_ws, lemma_line_len, lemma_trail_ws, line_end, line_len,
    lines, push_range, push_str, range_equals, range_is_blank, range_lead_ws, range_trail_ws,
    range_trim_line_end, string_of, string_push, to_chars, trim, trim_line_end,
    trim_newlines_end, utf8_len,
};

verus! {

// ---------------------------------------------------------------------------
// Blocks
// ---------------------------------------------------------------------------

/// One contiguous slice of the source document.
///
/// Concatenating every block's `text` in document order reproduces the
/// source document exactly (see `lemma_split_join_roundtrip`).
#[derive(Debug, Clone, PartialEq, Eq)]
pub struct Block {
    /// The exact source slice, including its own trailing newline(s) and any
    /// blank-line separator that follows it. Never trimmed.
    pub text: String,
    /// True when this block is a single `is_atomic` line held apart so the
    /// user edits just that one line.
    pub atomic: bool,
    /// True when this block is the document's leading YAML frontmatter.
    pub frontmatter: bool,
}

/// The mathematical value of a [`Block`].
pub struct BlockModel {
    pub text: Seq<char>,
    pub atomic: bool,
    pub frontmatter: bool,
}

impl View for Block {
    type V = BlockModel;

    open spec fn view(&self) -> BlockModel {
        BlockModel { text: self.text@, atomic: self.atomic, frontmatter: self.frontmatter }
    }
}

/// The models of a sequence of blocks.
pub open spec fn blocks_view(bs: Seq<Block>) -> Seq<BlockModel> {
    bs.map_values(|b: Block| b@)
}

/// A plain (neither atomic nor frontmatter) block holding `text`.
pub open spec fn plain(text: Seq<char>) -> BlockModel {
    BlockModel { text, atomic: false, frontmatter: false }
}

/// Concatenation of the blocks' texts, in order.
pub open spec fn spec_join(bs: Seq<BlockModel>) -> Seq<char>
    decreases bs.len(),
{
    if bs.len() == 0 {
        Seq::empty()
    } else {
        spec_join(bs.drop_last()) + bs.last().text
    }
}

/// A copy of `b` with the same value.
pub fn copy_block(b: &Block) -> (r: Block)
    ensures
        r@ == b@,
{
    Block { text: b.text.clone(), atomic: b.atomic, frontmatter: b.frontmatter }
}

/// Copies a slice of blocks.
pub fn copy_blocks(bs: &[Block]) -> (r: Vec<Block>)
    ensures
        r@.len() == bs@.len(),
        blocks_view(r@) == blocks_view(bs@),
{
    let mut r: Vec<Block> = Vec::new();
    let mut i: usize = 0;
    while i < bs.len()
        invariant
            0 <= i <= bs.len(),
            r@.len() == i,
            blocks_view(r@) == blocks_view(bs@).take(i as int),
        decreases bs.len() - i,
    {
        let ghost prev = r@;
        r.push(copy_block(&bs[i]));
        i = i + 1;
        assert forall|j: int| 0 <= j < i implies #[trigger] blocks_view(r@)[j] == blocks_view(
            bs@,
        ).take(i as int)[j] by {
            if j < i - 1 {
                assert(r@[j] == prev[j]);
                assert(blocks_view(prev)[j] == blocks_view(bs@).take(i - 1)[j]);
            }
        }
        assert(blocks_view(r@) =~= blocks_view(bs@).take(i as int));
    }
    assert(blocks_view(bs@).take(bs.len() as int) =~= blocks_view(bs@));
    r
}

/// Concatenate blocks back into a single source string. The exact inverse of
/// [`split_blocks`].
pub fn join_blocks(blocks: &[Block]) -> (out: String)
    ensures
        out@ == spec_join(blocks_view(blocks@)),
{
    let mut out = String::new();
    let mut i: usize = 0;
    while i < blocks.len()
        invariant
            0 <= i <= blocks.len(),
            out@ == spec_join(blocks_view(blocks@).take(i as int)),
        decreases blocks.len() - i,
    {
        push_str(&mut out, blocks[i].text.as_str());
        i = i + 1;
        assert(blocks_view(blocks@).take(i as int).drop_last() =~= blocks_view(blocks@).take(
            i - 1,
        ));
    }
    assert(blocks_view(blocks@).take(blocks.len() as int) =~= blocks_view(blocks@));
    out
}

// ---------------------------------------------------------------------------
// Code fences
// ---------------------------------------------------------------------------

/// Indentation width of a whitespace run: a tab counts four columns, any
/// other character one.
pub open spec fn indent_width(s: Seq<char>) -> nat
    decreases s.len(),
{
    if s.len() == 0 {
        0
    } else {
        indent_width(s.drop_last()) + (if s.last() == '\t' {
            4nat
        } else {
            1nat
        })
    }
}

/// Number of leading characters of `s` equal to `ch`.
pub open spec fn run_len(s: Seq<char>, ch: char) -> nat
    decreases s.len(),
{
    if s.len() > 0 && s[0] == ch {
        1 + run_len(s.drop_first(), ch)
    } else {
        0
    }
}

/// If the line content `c` opens a code fence, its fence character and run
/// length. A fence opener is indented by less than four columns (CommonMark)
/// and starts with at least three backticks or tildes.
pub open spec fn spec_open_fence(c: Seq<char>) -> Option<(char, nat)> {
    let w = lead_ws(c);
    let t = c.skip(w as int);
    if indent_width(c.take(w as int)) >= 4 || t.len() == 0 || (t[0] != '`' && t[0] != '~')
        || run_len(t, t[0]) < 3 {
        None
    } else {
        Some((t[0], run_len(t, t[0])))
    }
}

/// A closing fence is a line of only `fch` (surrounding whitespace aside), at
/// least `flen` long.
pub open spec fn spec_is_closing_fence(c: Seq<char>, fch: char, flen: nat) -> bool {
    let t = trim(c);
    t.len() >= flen && forall|i: int| 0 <= i < t.len() ==> #[trigger] t[i] == fch
}

proof fn lemma_indent_mono(s: Seq<char>, j: int, k: int)
    requires
        0 <= j <= k <= s.len(),
    ensures
        indent_width(s.take(j)) <= indent_width(s.take(k)),
    decreases k - j,
{
    if j < k {
        lemma_indent_mono(s, j, k - 1);
        assert(s.take(k).drop_last() =~= s.take(k - 1));
    }
}

proof fn lemma_run_len(s: Seq<char>, ch: char)
    ensures
        run_len(s, ch) <= s.len(),
        forall|i: int| 0 <= i < run_len(s, ch) ==> #[trigger] s[i] == ch,
        run_len(s, ch) < s.len() ==> s[run_len(s, ch) as int] != ch,
    decreases s.len(),
{
    if s.len() > 0 && s[0] == ch {
        lemma_run_len(s.drop_first(), ch);
        assert forall|i: int| 0 <= i < run_len(s, ch) implies #[trigger] s[i] == ch by {
            if i > 0 {
                assert(s[i] == s.drop_first()[i - 1]);
            }
        }
    }
}

/// Number of leading `ch` in `v[lo..hi]`.
fn range_run_len(v: &Vec<char>, lo: usize, hi: usize, ch: char) -> (n: usize)
    requires
        lo <= hi <= v.len(),
    ensures
        n == run_len(v@.subrange(lo as int, hi as int), ch),
{
    let ghost s = v@.subrange(lo as int, hi as int);
    proof {
        lemma_run_len(s, ch);
    }
    let mut i: usize = lo;
    while i < hi && v[i] == ch
        invariant
            lo <= i <= hi <= v.len(),
            s == v@.subrange(lo as int, hi as int),
            forall|j: int| lo <= j < i ==> v@[j] == ch,
        decreases hi - i,
    {
        i = i + 1;
    }
    proof {
        let k = run_len(s, ch) as int;
        let n = i - lo;
        if n < k {
            assert(s[n] == v@[i as int]);
        } else if n > k {
            assert(s[k] == v@[lo + k]);
        }
    }
    i - lo
}

/// Fence opener of the content `v[lo..hi]`.
fn range_open_fence(v: &Vec<char>, lo: usize, hi: usize) -> (r: Option<(char, usize)>)
    requires
        lo <= hi <= v.len(),
    ensures
        fence_view(r) == spec_open_fence(v@.subrange(lo as int, hi as int)),
{
    let ghost c = v@.subrange(lo as int, hi as int);
    let w = range_lead_ws(v, lo, hi);
    proof {
        lemma_lead_ws(c);
    }
    let mut indent: usize = 0;
    let mut i: usize = 0;
    while i < w
        invariant
            0 <= i <= w,
            w == lead_ws(c),
            w <= c.len(),
            c == v@.subrange(lo as int, hi as int),
            lo + w <= hi <= v.len(),
            indent == indent_width(c.take(i as int)),
            indent < 4,
        decreases w - i,
    {
        let add: usize = if v[lo + i] == '\t' {
            4
        } else {
            1
        };
        assert(c[i as int] == v@[lo + i]);
        assert(c.take(i + 1).drop_last() =~= c.take(i as int));
        indent = indent + add;
        i = i + 1;
        if indent >= 4 {
            proof {
                lemma_indent_mono(c, i as int, w as int);
            }
            return None;
        }
    }
    let start = lo + w;
    let ghost t = c.skip(w as int);
    assert(t =~= v@.subrange(start as int, hi as int));
    if start >= hi {
        return None;
    }
    let ch = v[start];
    assert(t[0] == ch);
    if ch != '`' && ch != '~' {
        return None;
    }
    let n = range_run_len(v, start, hi, ch);
    if n < 3 {
        return None;
    }
    Some((ch, n))
}

/// The spec value of an executable fence state.
pub open spec fn fence_view(f: Option<(char, usize)>) -> Option<(char, nat)> {
    match f {
        Some((c, n)) => Some((c, n as nat)),
        None => None,
    }
}

/// Whether the content `v[lo..hi]` closes a fence of `flen` × `fch`.
fn range_is_closing_fence(v: &Vec<char>, lo: usize, hi: usize, fch: char, flen: usize) -> (r:
    bool)
    requires
        lo <= hi <= v.len(),
    ensures
        r == spec_is_closing_fence(v@.subrange(lo as int, hi as int), fch, flen as nat),
{
    let ghost c = v@.subrange(lo as int, hi as int);
    let a = range_lead_ws(v, lo, hi);
    let b = range_trail_ws(v, lo, hi);
    proof {
        lemma_lead_ws(c);
        lemma_trail_ws(c);
        lemma_blank_iff_trim_empty(c);
    }
    if a >= hi - lo {
        // All whitespace: the trimmed content is empty.
        return flen == 0;
    }
    proof {
        assert(!is_ws(c[a as int]));
        assert(c.len() - b > a);
    }
    let s = lo + a;
    let e = hi - b;
    let ghost t = trim(c);
    assert(t =~= v@.subrange(s as int, e as int));
    if e - s < flen {
        return false;
    }
    let mut i: usize = s;
    while i < e
        invariant
            s <= i <= e <= hi <= v.len(),
            lo <= s,
            t == v@.subrange(s as int, e as int),
            t == trim(v@.subrange(lo as int, hi as int)),
            forall|j: int| s <= j < i ==> v@[j] == fch,
        decreases e - i,
    {
        if v[i] != fch {
            assert(t[i - s] == v@[i as int]);
            return false;
        }
        i = i + 1;
    }
    assert forall|j: int| 0 <= j < t.len() implies #[trigger] t[j] == fch by {
        assert(t[j] == v@[s + j]);
    }
    true
}

/// If `content` opens a code fence, return its fence char and run length.
///
/// Follows CommonMark's indentation rule: a fence opener may be indented at
/// most three spaces (a tab counts four).
pub fn open_fence(content: &str) -> (r: Option<(char, usize)>)
    ensures
        fence_view(r) == spec_open_fence(content@),
{
    let v = to_chars(content);
    assert(v@.subrange(0, v@.len() as int) =~= v@);
    range_open_fence(&v, 0, v.len())
}

/// A closing fence is a line of only `fch` (no info string) at least as long
/// as the opener.
pub fn is_closing_fence(content: &str, fch: char, flen: usize) -> (r: bool)
    ensures
        r == spec_is_closing_fence(content@, fch, flen as nat),
{
    let v = to_chars(content);
    assert(v@.subrange(0, v@.len() as int) =~= v@);
    range_is_closing_fence(&v, 0, v.len(), fch, flen)
}

// ---------------------------------------------------------------------------
// Frontmatter
// ---------------------------------------------------------------------------

pub open spec fn dashes() -> Seq<char> {
    seq!['-', '-', '-']
}

pub open spec fn dots() -> Seq<char> {
    seq!['.', '.', '.']
}

/// Length (in characters) up to and including the first line of `s` that is
/// exactly `---` or `...` (trailing `\r\n` aside), if there is one.
pub open spec fn fm_close(s: Seq<char>) -> Option<nat>
    decreases s.len(),
{
    if s.len() == 0 {
        None
    } else {
        proof {
            lemma_line_len(s);
        }
        let k = line_len(s);
        let c = trim_line_end(s.take(k as int));
        if c == dashes() || c == dots() {
            Some(k)
        } else {
            match fm_close(s.skip(k as int)) {
                Some(m) => Some(k + m),
                None => None,
            }
        }
    }
}

/// Character length of the leading YAML frontmatter of `md`: the first line
/// is exactly `---`, and the run closes at the next line that is exactly
/// `---` or `...`. `None` when there is no closed run at offset zero.
pub open spec fn fm_chars(md: Seq<char>) -> Option<nat> {
    if md.len() == 0 {
        None
    } else {
        let k = line_len(md);
        if trim_line_end(md.take(k as int)) == dashes() {
            match fm_close(md.skip(k as int)) {
                Some(m) => Some(k + m),
                None => None,
            }
        } else {
            None
        }
    }
}

pub proof fn lemma_fm_close_bound(s: Seq<char>)
    ensures
        fm_close(s) matches Some(m) ==> 0 < m <= s.len(),
    decreases s.len(),
{
    if s.len() > 0 {
        lemma_line_len(s);
        lemma_fm_close_bound(s.skip(line_len(s) as int));
    }
}

pub proof fn lemma_fm_chars_bound(md: Seq<char>)
    ensures
        fm_chars(md) matches Some(n) ==> 0 < n <= md.len(),
{
    if md.len() > 0 {
        lemma_line_len(md);
        lemma_fm_close_bound(md.skip(line_len(md) as int));
    }
}

fn three(c: char) -> (v: Vec<char>)
    ensures
        v@ == seq![c, c, c],
{
    let mut v: Vec<char> = Vec::new();
    v.push(c);
    v.push(c);
    v.push(c);
    assert(v@ =~= seq![c, c, c]);
    v
}

/// Character length of the leading frontmatter of `v`.
fn frontmatter_chars(v: &Vec<char>) -> (r: Option<usize>)
    ensures
        match fm_chars(v@) {
            Some(n) => r == Some(n as usize),
            None => r is None,
        },
{
    if v.len() == 0 {
        return None;
    }
    let dash = three('-');
    let dot = three('.');
    let k0 = line_end(v, 0);
    assert(v@.skip(0) =~= v@);
    assert(v@.take(k0 as int) =~= v@.subrange(0, k0 as int));
    let c0 = range_trim_line_end(v, 0, k0);
    if !range_equals(v, 0, c0, &dash) {
        return None;
    }
    let mut pos: usize = k0;
    while pos < v.len()
        invariant
            0 < k0 <= pos <= v.len(),
            k0 == line_len(v@),
            dash@ == dashes(),
            dot@ == dots(),
            trim_line_end(v@.take(k0 as int)) == dashes(),
            fm_close(v@.skip(k0 as int)) == match fm_close(v@.skip(pos as int)) {
                Some(m) => Some((pos - k0) as nat + m),
                None => None::<nat>,
            },
        decreases v.len() - pos,
    {
        let e = line_end(v, pos);
        let ce = range_trim_line_end(v, pos, e);
        let ghost s = v@.skip(pos as int);
        proof {
            lemma_line_len(s);
            assert(s.take(line_len(s) as int) =~= v@.subrange(pos as int, e as int));
            assert(s.skip(line_len(s) as int) =~= v@.skip(e as int));
        }
        if range_equals(v, pos, ce, &dash) || range_equals(v, pos, ce, &dot) {
            proof {
                lemma_fm_close_bound(v@.skip(k0 as int));
            }
            return Some(e);
        }
        pos = e;
    }
    assert(v@.skip(pos as int).len() == 0);
    None
}

/// If `md` opens with YAML frontmatter, return the byte length of the whole
/// run — opening `---`, interior, and closing delimiter line (including its
/// trailing newline, when present).
///
/// The opener must be exactly `---` on the very first line; the run closes at
/// the next line that is exactly `---` or `...`. An unclosed opener returns
/// `None`. Lines are compared with any trailing `\r` stripped.
pub fn frontmatter_len(md: &str) -> (r: Option<usize>)
    requires
        utf8_len(md@) <= usize::MAX,
    ensures
        match fm_chars(md@) {
            Some(n) => r == Some(byte_offset(md@, n as int) as usize),
            None => r is None,
        },
{
    let v = to_chars(md);
    match frontmatter_chars(&v) {
        Some(n) => {
            proof {
                lemma_fm_chars_bound(v@);
            }
            Some(prefix_byte_len(&v, n))
        },
        None => None,
    }
}

/// Byte length of the first `n` characters of `v`.
pub fn prefix_byte_len(v: &Vec<char>, n: usize) -> (r: usize)
    requires
        n <= v.len(),
        utf8_len(v@) <= usize::MAX,
    ensures
        r == byte_offset(v@, n as int),
{
    proof {
        lemma_byte_offset_mono(v@, n as int, v@.len() as int);
        assert(v@.take(v@.len() as int) =~= v@);
    }
    let mut r: usize = 0;
    let mut i: usize = 0;
    while i < n
        invariant
            0 <= i <= n <= v.len(),
            r == byte_offset(v@, i as int),
            byte_offset(v@, n as int) <= usize::MAX,
        decreases n - i,
    {
        proof {
            lemma_byte_offset_mono(v@, i + 1, n as int);
            assert(v@.take(i + 1).drop_last() =~= v@.take(i as int));
        }
        r = r + char_utf8_width(v[i]);
        i = i + 1;
    }
    r
}

// ---------------------------------------------------------------------------
// Splitting
// ---------------------------------------------------------------------------

/// The caller's `is_atomic` answers, as a predicate on a line's content.
pub open spec fn pred_holds<F: Fn(&str) -> bool>(f: F, line: Seq<char>) -> bool {
    exists|s: &str| s@ == line && call_ensures(f, (s,), true)
}

/// `f` is a pure predicate on text: callable on every string, and its answer
/// depends only on the text.
pub open spec fn is_line_predicate<F: Fn(&str) -> bool>(f: F) -> bool {
    &&& forall|s: &str| call_requires(f, (s,))
    &&& forall|s1: &str, s2: &str, b1: bool, b2: bool|
        s1@ == s2@ && #[trigger] call_ensures(f, (s1,), b1) && #[trigger] call_ensures(
            f,
            (s2,),
            b2,
        ) ==> b1 == b2
}

/// `f` as a spec predicate on line contents.
pub open spec fn atomic_pred<F: Fn(&str) -> bool>(f: F) -> spec_fn(Seq<char>) -> bool {
    |line: Seq<char>| pred_holds(f, line)
}

/// What one call of a line predicate returns.
pub proof fn lemma_pred_call<F: Fn(&str) -> bool>(f: F, s: &str, r: bool)
    requires
        is_line_predicate(f),
        call_ensures(f, (s,), r),
    ensures
        r == pred_holds(f, s@),
        r == atomic_pred(f)(s@),
{
    if !r && pred_holds(f, s@) {
        let s2 = choose|s2: &str| s2@ == s@ && call_ensures(f, (s2,), true);
        assert(call_ensures(f, (s2,), true));
    }
}

/// State of the line-by-line split: finished blocks, the block being built,
/// the open code fence (character and run length), and whether the current
/// block has absorbed a trailing blank line.
pub struct SplitState {
    pub blocks: Seq<BlockModel>,
    pub cur: Seq<char>,
    pub fence: Option<(char, nat)>,
    pub closed: bool,
}

/// Close the block being built, if it holds anything.
pub open spec fn flush(bs: Seq<BlockModel>, cur: Seq<char>) -> Seq<BlockModel> {
    if cur.len() == 0 {
        bs
    } else {
        bs.push(plain(cur))
    }
}

/// One line of the split.
///
/// * Inside a fence every line joins the current block; a closing fence line
///   ends the fence.
/// * A blank line joins the current block and arms a break.
/// * At a block boundary (start, or after a blank line) a fence opener starts
///   a new block and opens the fence.
/// * A line for which `atomic` holds becomes its own block.
/// * Any other line starts a new block after a blank line, and otherwise
///   joins the current one.
pub open spec fn split_step(st: SplitState, line: Seq<char>, atomic: spec_fn(Seq<char>) -> bool) -> SplitState {
    let content = trim_line_end(line);
    match st.fence {
        Some((fch, flen)) => SplitState {
            blocks: st.blocks,
            cur: st.cur + line,
            fence: if spec_is_closing_fence(content, fch, flen) {
                None
            } else {
                st.fence
            },
            closed: st.closed,
        },
        None => if is_blank(line) {
            SplitState { blocks: st.blocks, cur: st.cur + line, fence: None, closed: true }
        } else if (st.closed || st.cur.len() == 0) && spec_open_fence(content) is Some {
            SplitState {
                blocks: if st.closed {
                    flush(st.blocks, st.cur)
                } else {
                    st.blocks
                },
                cur: if st.closed {
                    line
                } else {
                    st.cur + line
                },
                fence: spec_open_fence(content),
                closed: false,
            }
        } else if atomic(content) {
            SplitState {
                blocks: flush(st.blocks, st.cur).push(
                    BlockModel { text: line, atomic: true, frontmatter: false },
                ),
                cur: Seq::empty(),
                fence: None,
                closed: false,
            }
        } else if st.closed {
            SplitState { blocks: flush(st.blocks, st.cur), cur: line, fence: None, closed: false }
        } else {
            SplitState { blocks: st.blocks, cur: st.cur + line, fence: None, closed: false }
        },
    }
}

/// The split state after the lines `ls`, starting from `init`.
pub open spec fn split_run(ls: Seq<Seq<char>>, init: SplitState, atomic: spec_fn(Seq<char>) -> bool) -> SplitState
    decreases ls.len(),
{
    if ls.len() == 0 {
        init
    } else {
        split_step(split_run(ls.drop_last(), init, atomic), ls.last(), atomic)
    }
}

/// Length of the run of whole blank lines at the start of `s`.
pub open spec fn blank_prefix(s: Seq<char>) -> nat
    decreases s.len(),
{
    if s.len() == 0 {
        0
    } else {
        proof {
            lemma_line_len(s);
        }
        let k = line_len(s);
        if is_blank(s.take(k as int)) {
            k + blank_prefix(s.skip(k as int))
        } else {
            0
        }
    }
}

pub proof fn lemma_blank_prefix_bound(s: Seq<char>)
    ensures
        blank_prefix(s) <= s.len(),
    decreases s.len(),
{
    if s.len() > 0 {
        lemma_line_len(s);
        lemma_blank_prefix_bound(s.skip(line_len(s) as int));
    }
}

pub open spec fn empty_state() -> SplitState {
    SplitState { blocks: Seq::empty(), cur: Seq::empty(), fence: None, closed: false }
}

/// Character length of the frontmatter block of `md` (the frontmatter and
/// the blank lines right after it), if `md` has frontmatter.
pub open spec fn fm_block_len(md: Seq<char>) -> Option<nat> {
    match fm_chars(md) {
        Some(n) => Some(n + blank_prefix(md.skip(n as int))),
        None => None,
    }
}

/// Where the line-by-line split starts: after the frontmatter block, which
/// is already finished.
pub open spec fn split_init(md: Seq<char>) -> SplitState {
    match fm_block_len(md) {
        Some(len) => SplitState {
            blocks: seq![BlockModel { text: md.take(len as int), atomic: false, frontmatter: true }],
            cur: Seq::empty(),
            fence: None,
            closed: false,
        },
        None => empty_state(),
    }
}

pub open spec fn split_body(md: Seq<char>) -> Seq<char> {
    match fm_block_len(md) {
        Some(len) => md.skip(len as int),
        None => md,
    }
}

/// The blocks of `md`, given which line contents are atomic.
pub open spec fn spec_split(md: Seq<char>, atomic: spec_fn(Seq<char>) -> bool) -> Seq<BlockModel> {
    let st = split_run(lines(split_body(md)), split_init(md), atomic);
    flush(st.blocks, st.cur)
}

pub proof fn lemma_blocks_view_push(bs: Seq<Block>, b: Block)
    ensures
        blocks_view(bs.push(b)) == blocks_view(bs).push(b@),
{
    assert(blocks_view(bs.push(b)) =~= blocks_view(bs).push(b@));
}

/// Closes the block being built, if it holds anything.
fn flush_block(blocks: &mut Vec<Block>, cur: String)
    ensures
        blocks_view(final(blocks)@) == flush(blocks_view(old(blocks)@), cur@),
{
    if !cur.as_str().is_empty() {
        proof {
            lemma_blocks_view_push(blocks@, Block { text: cur, atomic: false, frontmatter: false });
        }
        blocks.push(Block { text: cur, atomic: false, frontmatter: false });
    }
}

/// Length of the frontmatter block of `v` (frontmatter plus the blank lines
/// after it).
fn frontmatter_block_chars(v: &Vec<char>) -> (r: Option<usize>)
    ensures
        match fm_block_len(v@) {
            Some(n) => r == Some(n as usize),
            None => r is None,
        },
{
    match frontmatter_chars(v) {
        None => None,
        Some(n) => {
            proof {
                lemma_fm_chars_bound(v@);
            }
            let mut len: usize = n;
            while len < v.len()
                invariant
                    n <= len <= v.len(),
                    n + blank_prefix(v@.skip(n as int)) == len + blank_prefix(v@.skip(len as int)),
                ensures
                    n <= len <= v.len(),
                    n + blank_prefix(v@.skip(n as int)) == len + blank_prefix(v@.skip(len as int)),
                    len == v.len() || blank_prefix(v@.skip(len as int)) == 0,
                decreases v.len() - len,
            {
                let e = line_end(v, len);
                let ghost s = v@.skip(len as int);
                proof {
                    lemma_line_len(s);
                    assert(s.take(line_len(s) as int) =~= v@.subrange(len as int, e as int));
                    assert(s.skip(line_len(s) as int) =~= v@.skip(e as int));
                }
                if !range_is_blank(v, len, e) {
                    assert(blank_prefix(s) == 0);
                    break;
                }
                len = e;
            }
            proof {
                if len == v.len() {
                    assert(v@.skip(len as int).len() == 0);
                }
            }
            Some(len)
        },
    }
}

/// Split `md` into a lossless sequence of [`Block`]s.
///
/// * YAML frontmatter (`---` … `---` starting at byte 0), with the blank
///   lines after it, is one block flagged `frontmatter`.
/// * Fenced code (three or more backticks or tildes, opened at a block
///   boundary) is never split mid-fence.
/// * A line whose content `is_atomic` accepts becomes its own block.
/// * Otherwise blocks break on blank lines; a blank line attaches to the
///   block it follows.
pub fn split_blocks(md: &str, is_atomic: impl Fn(&str) -> bool) -> (blocks: Vec<Block>)
    requires
        is_line_predicate(is_atomic),
    ensures
        blocks_view(blocks@) == spec_split(md@, atomic_pred(is_atomic)),
{
    let ghost atomic = atomic_pred(is_atomic);
    let v = to_chars(md);
    let n = v.len();
    let mut blocks: Vec<Block> = Vec::new();
    let mut pos: usize = 0;
    match frontmatter_block_chars(&v) {
        Some(len) => {
            proof {
                lemma_fm_chars_bound(v@);
                let f = fm_chars(v@)->0;
                lemma_blank_prefix_bound(v@.skip(f as int));
            }
            let text = string_of(&v, 0, len);
            proof {
                lemma_blocks_view_push(blocks@, Block { text, atomic: false, frontmatter: true });
            }
            blocks.push(Block { text, atomic: false, frontmatter: true });
            pos = len;
        },
        None => {},
    }
    let start = pos;
    let ghost init = split_init(v@);
    let ghost body = split_body(v@);
    assert(blocks_view(blocks@) =~= init.blocks);
    assert(body =~= v@.skip(start as int));
    let mut cur = String::new();
    let mut fence: Option<(char, usize)> = None;
    let mut closed = false;
    let ghost mut done: Seq<Seq<char>> = Seq::empty();
    while pos < n
        invariant
            start <= pos <= n == v.len(),
            v@ == md@,
            is_line_predicate(is_atomic),
            atomic == atomic_pred(is_atomic),
            body == v@.skip(start as int),
            lines(body) == done + lines(v@.skip(pos as int)),
            blocks_view(blocks@) == split_run(done, init, atomic).blocks,
            cur@ == split_run(done, init, atomic).cur,
            fence_view(fence) == split_run(done, init, atomic).fence,
            closed == split_run(done, init, atomic).closed,
        decreases n - pos,
    {
        let e = line_end(&v, pos);
        let ce = range_trim_line_end(&v, pos, e);
        let ghost line = v@.subrange(pos as int, e as int);
        let ghost content = v@.subrange(pos as int, ce as int);
        let ghost st = split_run(done, init, atomic);
        proof {
            let s = v@.skip(pos as int);
            lemma_line_len(s);
            assert(s.take(line_len(s) as int) =~= line);
            assert(s.skip(line_len(s) as int) =~= v@.skip(e as int));
            assert(lines(s) == seq![line] + lines(v@.skip(e as int)));
            assert(done + lines(s) =~= done.push(line) + lines(v@.skip(e as int)));
            assert(done.push(line).drop_last() =~= done);
            assert(content == trim_line_end(line));
        }
        let ghost next = split_step(st, line, atomic);
        assert(split_run(done.push(line), init, atomic) == next);
        match fence {
            Some((fch, flen)) => {
                push_range(&mut cur, &v, pos, e);
                if range_is_closing_fence(&v, pos, ce, fch, flen) {
                    fence = None;
                }
            },
            None => {
                if range_is_blank(&v, pos, e) {
                    push_range(&mut cur, &v, pos, e);
                    closed = true;
                } else {
                    let opener = if closed || cur.as_str().is_empty() {
                        range_open_fence(&v, pos, ce)
                    } else {
                        None
                    };
                    if opener.is_some() {
                        if closed {
                            flush_block(&mut blocks, cur);
                            cur = String::new();
                            closed = false;
                        }
                        push_range(&mut cur, &v, pos, e);
                        fence = opener;
                        assert(cur@ =~= next.cur);
                    } else {
                        let c = string_of(&v, pos, ce);
                        let cs = c.as_str();
                        let a = is_atomic(cs);
                        proof {
                            lemma_pred_call(is_atomic, cs, a);
                        }
                        if a {
                            flush_block(&mut blocks, cur);
                            let t = string_of(&v, pos, e);
                            proof {
                                lemma_blocks_view_push(
                                    blocks@,
                                    Block { text: t, atomic: true, frontmatter: false },
                                );
                            }
                            blocks.push(Block { text: t, atomic: true, frontmatter: false });
                            cur = String::new();
                            closed = false;
                        } else {
                            if closed {
                                flush_block(&mut blocks, cur);
                                cur = String::new();
                                closed = false;
                            }
                            push_range(&mut cur, &v, pos, e);
                            assert(cur@ =~= next.cur);
                        }
                    }
                }
            },
        }
        proof {
            done = done.push(line);
        }
        pos = e;
    }
    proof {
        assert(v@.skip(pos as int).len() == 0);
        assert(done + Seq::<Seq<char>>::empty() =~= done);
    }
    flush_block(&mut blocks, cur);
    blocks
}

// ---------------------------------------------------------------------------
// Normalized rejoin
// ---------------------------------------------------------------------------

/// The canonical separator between blocks: one blank line.
pub open spec fn para_sep() -> Seq<char> {
    seq!['\n', '\n']
}

/// The block bodies of `bs` with their trailing newlines stripped, in order,
/// leaving out those that are empty or whitespace-only.
pub open spec fn norm_parts(bs: Seq<BlockModel>) -> Seq<Seq<char>>
    decreases bs.len(),
{
    if bs.len() == 0 {
        Seq::empty()
    } else {
        let p = norm_parts(bs.drop_last());
        let t = trim_newlines_end(bs.last().text);
        if is_blank(t) {
            p
        } else {
            p.push(t)
        }
    }
}

/// `parts.join(sep)`.
pub open spec fn join_with(parts: Seq<Seq<char>>, sep: Seq<char>) -> Seq<char>
    decreases parts.len(),
{
    if parts.len() == 0 {
        Seq::empty()
    } else if parts.len() == 1 {
        parts[0]
    } else {
        join_with(parts.drop_last(), sep) + sep + parts.last()
    }
}

/// Blocks joined with canonical single-blank-line separators, empty and
/// whitespace-only blocks dropped, a trailing newline added; a leading
/// frontmatter block is kept verbatim (one trailing newline) ahead of the
/// normalized rest.
pub open spec fn spec_rejoin_raw(bs: Seq<BlockModel>) -> Seq<char>
    decreases bs.len(),
{
    if bs.len() > 0 && bs[0].frontmatter {
        let head = trim_newlines_end(bs[0].text);
        let body = spec_rejoin_raw(bs.drop_first());
        if body.len() == 0 {
            head.push('\n')
        } else {
            head + para_sep() + body
        }
    } else {
        let parts = norm_parts(bs);
        if parts.len() == 0 {
            Seq::empty()
        } else {
            join_with(parts, para_sep()).push('\n')
        }
    }
}

/// The normalized body of `bs`: [`spec_rejoin_raw`], except that a body
/// whose first block is not frontmatter, but whose text would read as
/// frontmatter, keeps one leading blank line so it is not read as
/// frontmatter when it is split again.
pub open spec fn spec_rejoin(bs: Seq<BlockModel>) -> Seq<char> {
    let r = spec_rejoin_raw(bs);
    if !(bs.len() > 0 && bs[0].frontmatter) && fm_chars(r) is Some {
        seq!['\n'] + r
    } else {
        r
    }
}

/// `s` without its trailing `\n` / `\r` characters.
pub fn trim_newlines(s: &str) -> (r: String)
    ensures
        r@ == trim_newlines_end(s@),
{
    let v = to_chars(s);
    let mut e: usize = v.len();
    assert(v@.take(v@.len() as int) =~= v@);
    while e > 0 && (v[e - 1] == '\n' || v[e - 1] == '\r')
        invariant
            e <= v.len(),
            trim_newlines_end(v@) == trim_newlines_end(v@.take(e as int)),
        decreases e,
    {
        assert(v@.take(e as int).drop_last() =~= v@.take(e - 1));
        e = e - 1;
    }
    assert(v@.take(v@.len() as int) =~= v@);
    string_of(&v, 0, e)
}

/// Joins `blocks[start..]` with [`rejoin_normalized`]'s rules.
fn rejoin_from(blocks: &[Block], start: usize) -> (out: String)
    requires
        start <= blocks.len(),
    ensures
        out@ == spec_rejoin_raw(blocks_view(blocks@).skip(start as int)),
    decreases blocks.len() - start,
{
    let ghost bs = blocks_view(blocks@).skip(start as int);
    if start < blocks.len() && blocks[start].frontmatter {
        assert(bs[0] == blocks@[start as int]@);
        assert(bs.drop_first() =~= blocks_view(blocks@).skip(start + 1));
        let mut out = trim_newlines(blocks[start].text.as_str());
        let body = rejoin_from(blocks, start + 1);
        if body.as_str().is_empty() {
            string_push(&mut out, '\n');
        } else {
            string_push(&mut out, '\n');
            string_push(&mut out, '\n');
            push_str(&mut out, body.as_str());
            assert(out@ =~= trim_newlines_end(bs[0].text) + para_sep() + body@);
        }
        out
    } else {
        let mut out = String::new();
        let mut any = false;
        let mut i: usize = start;
        while i < blocks.len()
            invariant
                start <= i <= blocks.len(),
                bs == blocks_view(blocks@).skip(start as int),
                any == (norm_parts(bs.take(i - start)).len() > 0),
                out@ == join_with(norm_parts(bs.take(i - start)), para_sep()),
            decreases blocks.len() - i,
        {
            let t = trim_newlines(blocks[i].text.as_str());
            let ghost prev = bs.take(i - start);
            assert(bs.take(i + 1 - start).drop_last() =~= prev);
            assert(bs.take(i + 1 - start).last() == blocks@[i as int]@);
            if !text_is_blank(t.as_str()) {
                if any {
                    string_push(&mut out, '\n');
                    string_push(&mut out, '\n');
                }
                push_str(&mut out, t.as_str());
                let ghost ps = norm_parts(prev).push(t@);
                assert(ps.drop_last() =~= norm_parts(prev));
                if any {
                    assert(out@ =~= join_with(norm_parts(prev), para_sep()) + para_sep() + t@);
                } else {
                    assert(out@ =~= t@);
                }
                any = true;
            }
            i = i + 1;
        }
        assert(bs.take(blocks.len() - start) =~= bs);
        if any {
            string_push(&mut out, '\n');
        }
        out
    }
}

/// Join blocks with canonical single-blank-line separators, dropping empty /
/// whitespace-only blocks. Only the separators between blocks are touched;
/// each block's own content (leading indentation, soft line breaks) is
/// preserved. A leading frontmatter block is kept verbatim. When the first
/// block is not frontmatter but the joined text would open with a
/// frontmatter run, one leading blank line is kept, so blocks can never
/// merge into frontmatter when the result is split again.
pub fn rejoin_normalized(blocks: &[Block]) -> (out: String)
    ensures
        out@ == spec_rejoin(blocks_view(blocks@)),
{
    assert(blocks_view(blocks@).skip(0) =~= blocks_view(blocks@));
    let raw = rejoin_from(blocks, 0);
    let leading_fm = blocks.len() > 0 && blocks[0].frontmatter;
    if !leading_fm {
        let v = to_chars(raw.as_str());
        if frontmatter_chars(&v).is_some() {
            let mut out = String::new();
            string_push(&mut out, '\n');
            push_str(&mut out, raw.as_str());
            assert(out@ =~= seq!['\n'] + raw@);
            return out;
        }
    }
    raw
}

/// Re-split `md` and rejoin it with [`rejoin_normalized`]: the canonical form
/// of a body after a structural edit.
pub fn normalize_body(md: &str, is_atomic: impl Fn(&str) -> bool) -> (out: String)
    requires
        is_line_predicate(is_atomic),
    ensures
        out@ == spec_rejoin(spec_split(md@, atomic_pred(is_atomic))),
{
    let bs = split_blocks(md, is_atomic);
    rejoin_normalized(bs.as_slice())
}

/// `s` ends with a paragraph break (a blank line) after this, unless empty.
pub open spec fn spec_ensure_break(s: Seq<char>) -> Seq<char> {
    if s.len() == 0 || (s.len() >= 2 && s[s.len() - 1] == '\n' && s[s.len() - 2] == '\n') {
        s
    } else if s.last() == '\n' {
        s.push('\n')
    } else {
        s + para_sep()
    }
}

/// Ensure `s` ends with a paragraph break (a blank line) so whatever follows
/// it starts its own paragraph. No-op when `s` is empty or already
/// blank-terminated.
pub fn ensure_paragraph_break(s: &mut String)
    ensures
        final(s)@ == spec_ensure_break(old(s)@),
{
    let v = to_chars(s.as_str());
    let n = v.len();
    if n == 0 || (n >= 2 && v[n - 1] == '\n' && v[n - 2] == '\n') {
        return;
    }
    if v[n - 1] == '\n' {
        string_push(s, '\n');
    } else {
        string_push(s, '\n');
        string_push(s, '\n');
        assert(s@ =~= old(s)@ + para_sep());
    }
}

/// Remove block `i` and return the normalized body. Out-of-range `i` is a
/// no-op (the body is only normalized).
pub fn delete_and_normalize(blocks: &[Block], i: usize) -> (out: String)
    ensures
        out@ == spec_rejoin(
            if i < blocks@.len() {
                blocks_view(blocks@).remove(i as int)
            } else {
                blocks_view(blocks@)
            },
        ),
{
    let mut v = copy_blocks(blocks);
    if i < v.len() {
        let ghost before = v@;
        v.remove(i);
        assert(blocks_view(v@) =~= blocks_view(before).remove(i as int));
    }
    rejoin_normalized(v.as_slice())
}

/// The blocks of `bs` whose text is not blank, in order.
pub open spec fn drop_blank(bs: Seq<BlockModel>) -> Seq<BlockModel>
    decreases bs.len(),
{
    if bs.len() == 0 {
        Seq::empty()
    } else if is_blank(bs.last().text) {
        drop_blank(bs.drop_last())
    } else {
        drop_blank(bs.drop_last()).push(bs.last())
    }
}

/// Where text inserted after block `i` lands among `len` blocks.
pub open spec fn insert_pos(i: int, len: int) -> int {
    if i + 1 < len {
        i + 1
    } else {
        len
    }
}

/// `bs` with block `at - 1` ending in a paragraph break (when `at > 0`).
pub open spec fn break_before(bs: Seq<BlockModel>, at: int) -> Seq<BlockModel> {
    if at > 0 {
        bs.update(
            at - 1,
            BlockModel {
                text: spec_ensure_break(bs[at - 1].text),
                atomic: bs[at - 1].atomic,
                frontmatter: bs[at - 1].frontmatter,
            },
        )
    } else {
        bs
    }
}

/// The block list after inserting the non-blank blocks of `ins` right after
/// block `i` (the preceding block first gets a paragraph break).
pub open spec fn spec_insert_after(bs: Seq<BlockModel>, i: int, ins: Seq<BlockModel>) -> Seq<BlockModel> {
    let at = insert_pos(i, bs.len() as int);
    let b = break_before(bs, at);
    b.take(at) + drop_blank(ins) + b.skip(at)
}

/// Gives block `at - 1` a paragraph break at its end (when `at > 0`).
pub fn break_block_before(v: &mut Vec<Block>, at: usize)
    requires
        at <= old(v).len(),
    ensures
        final(v)@.len() == old(v)@.len(),
        blocks_view(final(v)@) == break_before(blocks_view(old(v)@), at as int),
{
    if at > 0 {
        let b = &v[at - 1];
        let mut t = b.text.clone();
        let atomic = b.atomic;
        let frontmatter = b.frontmatter;
        ensure_paragraph_break(&mut t);
        let ghost before = v@;
        v.set(at - 1, Block { text: t, atomic, frontmatter });
        assert(blocks_view(v@) =~= break_before(blocks_view(before), at as int));
    } else {
        assert(blocks_view(v@) =~= break_before(blocks_view(v@), at as int));
    }
}

/// Whether `s` is blank.
pub fn text_is_blank(s: &str) -> (r: bool)
    ensures
        r == is_blank(s@),
{
    let v = to_chars(s);
    assert(v@.subrange(0, v@.len() as int) =~= v@);
    range_is_blank(&v, 0, v.len())
}

/// Inserts (copies of) the non-blank blocks of `ins` into `v` at `at`,
/// keeping their order.
fn insert_nonblank(v: &mut Vec<Block>, at: usize, ins: &Vec<Block>)
    requires
        at <= old(v).len(),
    ensures
        blocks_view(final(v)@) == blocks_view(old(v)@).take(at as int) + drop_blank(
            blocks_view(ins@),
        ) + blocks_view(old(v)@).skip(at as int),
{
    let ghost orig = blocks_view(v@);
    let ghost iv = blocks_view(ins@);
    let mut k: usize = 0;
    let mut j: usize = 0;
    assert(iv.take(0) =~= Seq::<BlockModel>::empty());
    assert(blocks_view(v@) =~= orig.take(at as int) + drop_blank(iv.take(0)) + orig.skip(at as int));
    while j < ins.len()
        invariant
            0 <= j <= ins.len(),
            at <= orig.len(),
            iv == blocks_view(ins@),
            k == drop_blank(iv.take(j as int)).len(),
            v@.len() == orig.len() + k,
            blocks_view(v@) == orig.take(at as int) + drop_blank(iv.take(j as int)) + orig.skip(
                at as int,
            ),
        decreases ins.len() - j,
    {
        let ghost d = drop_blank(iv.take(j as int));
        assert(iv.take(j + 1).drop_last() =~= iv.take(j as int));
        assert(iv.take(j + 1).last() == ins@[j as int]@);
        if !text_is_blank(ins[j].text.as_str()) {
            let b = copy_block(&ins[j]);
            let ghost before = v@;
            // The vector's length fits in a usize, so `at + k` does too.
            assert(v@.len() == v.len());
            v.insert(at + k, b);
            assert(v@.len() == v.len());
            assert(blocks_view(v@) =~= blocks_view(before).insert(at + k, b@));
            assert(blocks_view(v@) =~= orig.take(at as int) + d.push(b@) + orig.skip(at as int));
            k = k + 1;
        }
        j = j + 1;
    }
    assert(iv.take(ins.len() as int) =~= iv);
}

/// Insert `text` immediately after block `i` and return the normalized body.
/// The text is re-split with [`split_blocks`], so a multi-paragraph paste
/// becomes separate blocks; whitespace-only pieces are dropped.
pub fn insert_after_and_normalize(
    blocks: &[Block],
    i: usize,
    text: &str,
    is_atomic: impl Fn(&str) -> bool,
) -> (out: String)
    requires
        is_line_predicate(is_atomic),
    ensures
        out@ == spec_rejoin(
            spec_insert_after(
                blocks_view(blocks@),
                i as int,
                spec_split(text@, atomic_pred(is_atomic)),
            ),
        ),
{
    let mut v = copy_blocks(blocks);
    let at = if i < v.len() && i + 1 < v.len() {
        i + 1
    } else {
        v.len()
    };
    break_block_before(&mut v, at);
    let inserted = split_blocks(text, is_atomic);
    insert_nonblank(&mut v, at, &inserted);
    rejoin_normalized(v.as_slice())
}

} // verus!
