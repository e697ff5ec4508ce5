//! Keyboard editing inside the active block, decided from the textarea's
//! value and caret: double-Enter on a blank line splits the block,
//! arrow keys cross into the neighbouring block at the same column, and
//! inline-format keys wrap the selection.
use vstd::prelude::*;
use crate::text::{
    is_blank, is_boundary, is_ws, push_range, push_str, range_is_blank, string_of, string_push,
    to_chars, utf16_len, utf8_len,
};
use crate::blocks::{Block, BlockModel, blocks_view, ensure_paragraph_break, spec_ensure_break};
use crate::autocomplete::{
    after_last_newline, after_last_newline_before, char_index, char_index_at_byte,
    lemma_after_last_newline,
};
use crate::positions::{
    lemma_utf16_char_index_bound, lemma_utf16_char_index_mono, prefix_utf16_len,
    utf16_char_index,
};

verus! {

/// Index of the first `\n` of `s`, or its length when there is none.
pub open spec fn first_newline(s: Seq<char>) -> nat
    decreases s.len(),
{
    if s.len() == 0 || s[0] == '\n' {
        0
    } else {
        1 + first_newline(s.drop_first())
    }
}

proof fn lemma_first_newline(s: Seq<char>)
    ensures
        first_newline(s) <= s.len(),
        forall|i: int| 0 <= i < first_newline(s) ==> #[trigger] s[i] != '\n',
        first_newline(s) < s.len() ==> s[first_newline(s) as int] == '\n',
    decreases s.len(),
{
    if s.len() > 0 && s[0] != '\n' {
        lemma_first_newline(s.drop_first());
        assert forall|i: int| 0 <= i < first_newline(s) implies #[trigger] s[i] != '\n' by {
            if i > 0 {
                assert(s[i] == s.drop_first()[i - 1]);
            }
        }
        if first_newline(s) < s.len() {
            assert(s[first_newline(s) as int] == s.drop_first()[first_newline(s) - 1]);
        }
    }
}

/// Index of the first `\n` in `v[from..]` (or `v.len()`).
fn next_newline(v: &Vec<char>, from: usize) -> (r: usize)
    requires
        from <= v.len(),
    ensures
        r == from + first_newline(v@.skip(from as int)),
{
    let ghost s = v@.skip(from as int);
    proof {
        lemma_first_newline(s);
    }
    let mut i: usize = from;
    while i < v.len() && v[i] != '\n'
        invariant
            from <= i <= v.len(),
            s == v@.skip(from as int),
            forall|j: int| from <= j < i ==> v@[j] != '\n',
        decreases v.len() - i,
    {
        i = i + 1;
    }
    proof {
        let f = first_newline(s) as int;
        if i - from < f {
            assert(s[i - from] == v@[i as int]);
        } else if i - from > f {
            assert(s[f] == v@[from + f]);
        }
    }
    i
}

/// What double-Enter does at character `kc` of `value`: when the caret's
/// line is blank, the text before that line (ending in a paragraph break)
/// and the text after it (one leading line break dropped); otherwise `None`.
pub open spec fn spec_blank_line_split(value: Seq<char>, kc: int) -> Option<(Seq<char>, Seq<char>)> {
    let ls = after_last_newline(value.take(kc)) as int;
    let le = kc + first_newline(value.skip(kc));
    if !is_blank(value.subrange(ls, le)) {
        None
    } else {
        let rest = value.skip(le);
        Some(
            (
                spec_ensure_break(value.take(ls)),
                if rest.len() > 0 && rest[0] == '\n' {
                    rest.drop_first()
                } else {
                    rest
                },
            ),
        )
    }
}

/// Double-Enter: a plain Enter on a blank line ends this block and opens a
/// fresh one below. Returns the block's new text (ending in a paragraph
/// break) and the new block's text, or `None` when the caret's line is not
/// blank (the Enter then just inserts a newline).
pub fn blank_line_split(value: &str, caret: usize) -> (r: Option<(String, String)>)
    requires
        utf8_len(value@) <= usize::MAX,
        is_boundary(value@, caret as int),
    ensures
        match spec_blank_line_split(value@, char_index(value@, caret as int)) {
            None => r is None,
            Some((h, t)) => r matches Some((head, tail)) && head@ == h && tail@ == t,
        },
{
    let v = to_chars(value);
    let kc = char_index_at_byte(&v, caret);
    let ls = after_last_newline_before(&v, kc);
    proof {
        lemma_after_last_newline(v@.take(kc as int));
    }
    let le = next_newline(&v, kc);
    proof {
        lemma_first_newline(v@.skip(kc as int));
    }
    if !range_is_blank(&v, ls, le) {
        return None;
    }
    let mut head = string_of(&v, 0, ls);
    assert(head@ =~= v@.take(ls as int));
    ensure_paragraph_break(&mut head);
    let from = if le < v.len() && v[le] == '\n' {
        le + 1
    } else {
        le
    };
    let tail = string_of(&v, from, v.len());
    proof {
        let rest = v@.skip(le as int);
        if le < v.len() {
            assert(rest[0] == v@[le as int]);
        }
        if le < v.len() && v@[le as int] == '\n' {
            assert(tail@ =~= rest.drop_first());
        } else {
            assert(tail@ =~= rest);
        }
    }
    Some((head, tail))
}

/// An arrow key.
#[derive(Debug, Clone, Copy, PartialEq, Eq, Structural)]
pub enum Arrow {
    Up,
    Down,
    Left,
    Right,
}

/// Up on the first line, or Left at the start, leaves the block upward.
pub open spec fn arrow_goes_prev(key: Arrow, value: Seq<char>, kc: int) -> bool {
    (key == Arrow::Up && after_last_newline(value.take(kc)) == 0) || (key == Arrow::Left && kc
        == 0)
}

/// Down on the last line, or Right at the end, leaves the block downward.
pub open spec fn arrow_goes_next(key: Arrow, value: Seq<char>, kc: int) -> bool {
    (key == Arrow::Down && kc + first_newline(value.skip(kc)) == value.len()) || (key
        == Arrow::Right && kc == value.len())
}

/// The block that an arrow key at character `kc` of block `i`'s text moves
/// into: the previous block when it leaves upward, the next one when it
/// leaves downward, if there is such a block.
pub open spec fn spec_arrow_target(key: Arrow, value: Seq<char>, kc: int, i: int, n: int) -> Option<int> {
    if arrow_goes_prev(key, value, kc) && i > 0 {
        Some(i - 1)
    } else if arrow_goes_next(key, value, kc) && i + 1 < n {
        Some(i + 1)
    } else {
        None
    }
}

/// Character index in the target block `t` where the caret lands: the same
/// column on its last line (Up) or first line (Down), its end (Left), or
/// its start (Right).
pub open spec fn spec_arrow_landing(key: Arrow, t: Seq<char>, column: int) -> int {
    match key {
        Arrow::Up => {
            let ls = after_last_newline(t) as int;
            ls + if column < t.len() - ls {
                column
            } else {
                t.len() - ls
            }
        },
        Arrow::Down => {
            let le = first_newline(t) as int;
            if column < le {
                column
            } else {
                le
            }
        },
        Arrow::Left => t.len() as int,
        Arrow::Right => 0,
    }
}

/// What an arrow key at character `kc` of block `i` (whose text is `value`)
/// does among the blocks `bs`: the block moved into and the character index
/// where the caret lands in it; `None` when the key stays within the block.
pub open spec fn spec_arrow_nav(key: Arrow, value: Seq<char>, kc: int, i: int, bs: Seq<BlockModel>) -> Option<
    (int, int),
> {
    match spec_arrow_target(key, value, kc, i, bs.len() as int) {
        None => None,
        Some(t) => Some(
            (t, spec_arrow_landing(key, bs[t].text, kc - after_last_newline(value.take(kc)))),
        ),
    }
}

/// Cross-block arrow navigation from byte `caret` of block `i` (whose text
/// is `value`): the block to move into and the caret to place there, in
/// UTF-16 code units; `None` when the key stays within the block.
pub fn arrow_nav(key: Arrow, value: &str, caret: usize, i: usize, snap: &Vec<Block>) -> (r: Option<
    (usize, u32),
>)
    requires
        utf8_len(value@) <= usize::MAX,
        is_boundary(value@, caret as int),
        spec_arrow_nav(
            key,
            value@,
            char_index(value@, caret as int),
            i as int,
            blocks_view(snap@),
        ) matches Some((t, l)) ==> t < snap@.len() && utf16_len(snap@[t].text@.take(l)) <= u32::MAX,
    ensures
        match spec_arrow_nav(
            key,
            value@,
            char_index(value@, caret as int),
            i as int,
            blocks_view(snap@),
        ) {
            None => r is None,
            Some((t, l)) => r matches Some((ti, pos)) && ti == t && pos == utf16_len(
                snap@[t].text@.take(l),
            ),
        },
{
    let v = to_chars(value);
    let kc = char_index_at_byte(&v, caret);
    let ls = after_last_newline_before(&v, kc);
    let le = next_newline(&v, kc);
    proof {
        lemma_after_last_newline(v@.take(kc as int));
        lemma_first_newline(v@.skip(kc as int));
    }
    let column = kc - ls;
    let on_first_line = ls == 0;
    let on_last_line = le == v.len();
    let go_prev = (key == Arrow::Up && on_first_line) || (key == Arrow::Left && kc == 0);
    let go_next = (key == Arrow::Down && on_last_line) || (key == Arrow::Right && kc == v.len());
    let target = if go_prev && i > 0 {
        i - 1
    } else if go_next && i < snap.len() && i + 1 < snap.len() {
        i + 1
    } else {
        return None;
    };
    let t = to_chars(snap[target].text.as_str());
    let land: usize = match key {
        Arrow::Up => {
            let tls = after_last_newline_before(&t, t.len());
            proof {
                assert(t@.take(t@.len() as int) =~= t@);
                lemma_after_last_newline(t@);
            }
            tls + if column < t.len() - tls {
                column
            } else {
                t.len() - tls
            }
        },
        Arrow::Down => {
            let tle = next_newline(&t, 0);
            proof {
                assert(t@.skip(0) =~= t@);
                lemma_first_newline(t@);
            }
            if column < tle {
                column
            } else {
                tle
            }
        },
        Arrow::Left => t.len(),
        Arrow::Right => 0,
    };
    assert(snap@[target as int].text@ == t@);
    let pos = prefix_utf16_len(&t, land);
    Some((target, pos))
}

/// An inline-format action: wrap the selection (or caret) with
/// `open`…`close`.
pub struct WrapSpec {
    /// Text inserted before the selection (e.g. `**`, `[`).
    pub open: String,
    /// Text inserted after the selection (e.g. `**`, `](url)`).
    pub close: String,
    /// After wrapping, select the `url` placeholder inside `close` instead of
    /// keeping the selection on the wrapped text.
    pub select_url: bool,
    /// Only act when there is a non-empty selection.
    pub require_selection: bool,
}

/// Name for `str::to_lowercase`: the Unicode lowercase mapping of a string.
pub uninterp spec fn lowercase(s: Seq<char>) -> Seq<char>;

/// ASCII lowercasing: `A`–`Z` become `a`–`z`, every other character stays.
pub open spec fn ascii_lower(s: Seq<char>) -> Seq<char> {
    s.map_values(|c: char| if 'A' <= c && c <= 'Z' { ((c as u32) + 32) as char } else { c })
}

/// Every character of `s` is ASCII.
pub open spec fn all_ascii(s: Seq<char>) -> bool {
    forall|i: int| 0 <= i < s.len() ==> (#[trigger] s[i] as u32) < 0x80
}

/// The lowercase form of a key's text: [`ascii_lower`] for ASCII keys, the
/// Unicode mapping otherwise.
pub open spec fn key_lower(s: Seq<char>) -> Seq<char> {
    if all_ascii(s) {
        ascii_lower(s)
    } else {
        lowercase(s)
    }
}

/// `str::to_lowercase`. Trusted: the result is the named Unicode lowercase
/// mapping of the argument, which on all-ASCII text maps `A`–`Z` to `a`–`z`
/// and leaves every other character as it is.
#[verifier::external_body]
fn to_lowercase(s: &str) -> (r: String)
    ensures
        r@ == lowercase(s@),
        all_ascii(s@) ==> r@ == ascii_lower(s@),
{
    s.to_lowercase()
}

/// The wrap, as `(open, close, select_url, require_selection)`, that the
/// character key `c` asks for: with Cmd/Ctrl (no Alt) `b` bold, `i` italic,
/// `k` link (any case); without modifiers `*`, `_`, `` ` ``, `~` wrap a
/// selection in that character.
pub open spec fn spec_wrap_for_key(c: Seq<char>, cmd: bool, alt: bool) -> Option<
    (Seq<char>, Seq<char>, bool, bool),
> {
    if cmd && !alt {
        let l = key_lower(c);
        if l == seq!['b'] {
            Some((seq!['*', '*'], seq!['*', '*'], false, false))
        } else if l == seq!['i'] {
            Some((seq!['*'], seq!['*'], false, false))
        } else if l == seq!['k'] {
            Some((seq!['['], seq![']', '(', 'u', 'r', 'l', ')'], true, false))
        } else {
            None
        }
    } else if !cmd && !alt && (c == seq!['*'] || c == seq!['_'] || c == seq!['`'] || c
        == seq!['~']) {
        Some((c, c, false, true))
    } else {
        None
    }
}

/// Whether `v` is exactly the one character `c`.
fn is_single(v: &Vec<char>, c: char) -> (r: bool)
    ensures
        r == (v@ == seq![c]),
{
    let r = v.len() == 1 && v[0] == c;
    proof {
        if r {
            assert(v@ =~= seq![c]);
        }
    }
    r
}

fn text_of(cs: &Vec<char>) -> (s: String)
    ensures
        s@ == cs@,
{
    let s = string_of(cs, 0, cs.len());
    assert(cs@.subrange(0, cs@.len() as int) =~= cs@);
    s
}

fn chars2(a: char, b: char) -> (v: Vec<char>)
    ensures
        v@ == seq![a, b],
{
    let mut v: Vec<char> = Vec::new();
    v.push(a);
    v.push(b);
    assert(v@ =~= seq![a, b]);
    v
}

fn chars1(a: char) -> (v: Vec<char>)
    ensures
        v@ == seq![a],
{
    let mut v: Vec<char> = Vec::new();
    v.push(a);
    assert(v@ =~= seq![a]);
    v
}

fn link_close() -> (s: String)
    ensures
        s@ == seq![']', '(', 'u', 'r', 'l', ')'],
{
    let mut s = String::new();
    string_push(&mut s, ']');
    string_push(&mut s, '(');
    string_push(&mut s, 'u');
    string_push(&mut s, 'r');
    string_push(&mut s, 'l');
    string_push(&mut s, ')');
    assert(s@ =~= seq![']', '(', 'u', 'r', 'l', ')']);
    s
}

/// Resolve a character key press (`c`, with the Cmd/Ctrl and Alt modifier
/// states) into an inline-format action, if it is one.
pub fn wrap_for_key(c: &str, cmd: bool, alt: bool) -> (r: Option<WrapSpec>)
    ensures
        match spec_wrap_for_key(c@, cmd, alt) {
            None => r is None,
            Some((o, cl, su, rs)) => r matches Some(w) && w.open@ == o && w.close@ == cl
                && w.select_url == su && w.require_selection == rs,
        },
{
    if cmd && !alt {
        let l = to_chars(to_lowercase(c).as_str());
        if is_single(&l, 'b') {
            Some(
                WrapSpec {
                    open: text_of(&chars2('*', '*')),
                    close: text_of(&chars2('*', '*')),
                    select_url: false,
                    require_selection: false,
                },
            )
        } else if is_single(&l, 'i') {
            Some(
                WrapSpec {
                    open: text_of(&chars1('*')),
                    close: text_of(&chars1('*')),
                    select_url: false,
                    require_selection: false,
                },
            )
        } else if is_single(&l, 'k') {
            Some(
                WrapSpec {
                    open: text_of(&chars1('[')),
                    close: link_close(),
                    select_url: true,
                    require_selection: false,
                },
            )
        } else {
            None
        }
    } else if !cmd && !alt {
        let v = to_chars(c);
        if is_single(&v, '*') || is_single(&v, '_') || is_single(&v, '`') || is_single(&v, '~') {
            Some(
                WrapSpec {
                    open: text_of(&v),
                    close: text_of(&v),
                    select_url: false,
                    require_selection: true,
                },
            )
        } else {
            None
        }
    } else {
        None
    }
}

/// The textarea value after wrapping the UTF-16 selection `start..end`.
pub open spec fn spec_wrapped(value: Seq<char>, start: int, end: int, open: Seq<char>, close: Seq<char>) -> Seq<char> {
    let ks = utf16_char_index(value, start) as int;
    let ke = utf16_char_index(value, end) as int;
    value.take(ks) + open + value.subrange(ks, ke) + close + value.skip(ke)
}

/// The new selection (UTF-16) after a wrap: the `url` placeholder for a
/// link, the caret between the markers for an empty selection, otherwise
/// the wrapped text.
pub open spec fn spec_wrap_selection(start: int, end: int, open16: int, select_url: bool) -> (int, int) {
    if select_url {
        (end + open16 + 2, end + open16 + 5)
    } else if start == end {
        (start + open16, start + open16)
    } else {
        (start + open16, end + open16)
    }
}

/// Wrap the selection `start..end` (UTF-16 code units) of the textarea
/// `value` as `w` asks. Returns the new value and the new selection, or
/// `None` when `w` needs a selection and there is none.
pub fn apply_wrap(value: &str, start: usize, end: usize, w: &WrapSpec) -> (r: Option<(String, u32, u32)>)
    requires
        start <= end,
        end + utf16_len(w.open@) + (if w.select_url {
            5int
        } else {
            0int
        }) <= u32::MAX,
    ensures
        w.require_selection && start == end ==> r is None,
        !(w.require_selection && start == end) ==> (r matches Some((s, ns, ne)) && s@
            == spec_wrapped(value@, start as int, end as int, w.open@, w.close@) && (ns as int, ne as int)
            == spec_wrap_selection(start as int, end as int, utf16_len(w.open@) as int, w.select_url)),
{
    if w.require_selection && start == end {
        return None;
    }
    let v = to_chars(value);
    let ks = chars_before_utf16(&v, start);
    let ke = chars_before_utf16(&v, end);
    proof {
        lemma_utf16_char_index_mono(v@, start as int, end as int);
        lemma_utf16_char_index_bound(v@, end as int);
    }
    let mut s = string_of(&v, 0, ks);
    push_str(&mut s, w.open.as_str());
    push_range(&mut s, &v, ks, ke);
    push_str(&mut s, w.close.as_str());
    push_range(&mut s, &v, ke, v.len());
    let o = to_chars(w.open.as_str());
    proof {
        assert(o@.take(o@.len() as int) =~= o@);
    }
    let open16 = prefix_utf16_len(&o, o.len());
    let st = start as u32;
    let en = end as u32;
    let (ns, ne) = if w.select_url {
        let u = en + open16 + 2;
        (u, u + 3)
    } else if start == end {
        (st + open16, st + open16)
    } else {
        (st + open16, en + open16)
    };
    assert(s@ =~= spec_wrapped(value@, start as int, end as int, w.open@, w.close@));
    Some((s, ns, ne))
}

/// Number of leading characters of `v` before UTF-16 offset `u`.
fn chars_before_utf16(v: &Vec<char>, u: usize) -> (k: usize)
    ensures
        k == utf16_char_index(v@, u as int),
{
    let mut i: usize = 0;
    let mut units: usize = 0;
    proof {
        assert(v@.skip(0) =~= v@);
    }
    while i < v.len() && units < u
        invariant
            i <= v.len(),
            units <= u,
            utf16_char_index(v@, u as int) == i + utf16_char_index(v@.skip(i as int), u - units),
        decreases v.len() - i,
    {
        let c = v[i];
        let w = crate::text::char_utf16_width(c);
        proof {
            let t = v@.skip(i as int);
            assert(t[0] == c);
            assert(t.drop_first() =~= v@.skip(i + 1));
            assert(utf16_char_index(t, u - units) == 1 + utf16_char_index(
                v@.skip(i + 1),
                u - units - w,
            ));
            if u - units < w {
                assert(utf16_char_index(v@.skip(i + 1), u - units - w) == 0);
                assert(utf16_char_index(v@.skip(i + 1), 0) == 0);
            }
        }
        units = if u - units < w {
            u
        } else {
            units + w
        };
        i = i + 1;
    }
    i
}

// ---------------------------------------------------------------------------
// What the keys do, stated directly on the text
// ---------------------------------------------------------------------------

/// Character `j` of `v` is on the same line as the caret at character `kc`:
/// no line break lies between them (a break at `j` itself ends the line).
pub open spec fn on_caret_line(v: Seq<char>, kc: int, j: int) -> bool {
    if j < kc {
        forall|m: int| j <= m < kc ==> #[trigger] v[m] != '\n'
    } else {
        forall|m: int| kc <= m <= j ==> #[trigger] v[m] != '\n'
    }
}

/// `p` is where the line holding character position `k` of `s` starts.
pub open spec fn is_line_start(s: Seq<char>, k: int, p: int) -> bool {
    &&& 0 <= p <= k
    &&& p == 0 || s[p - 1] == '\n'
    &&& forall|m: int| p <= m < k ==> #[trigger] s[m] != '\n'
}

/// `e` is where the first line of `s` ends (its first `\n`, or the end).
pub open spec fn is_first_line_end(s: Seq<char>, e: int) -> bool {
    &&& 0 <= e <= s.len()
    &&& e == s.len() || s[e] == '\n'
    &&& forall|m: int| 0 <= m < e ==> #[trigger] s[m] != '\n'
}

proof fn lemma_line_start_unique(s: Seq<char>, k: int)
    requires
        0 <= k <= s.len(),
    ensures
        is_line_start(s, k, after_last_newline(s.take(k)) as int),
        forall|p: int| is_line_start(s, k, p) ==> p == after_last_newline(s.take(k)),
{
    let t = s.take(k);
    lemma_after_last_newline(t);
    let a = after_last_newline(t) as int;
    assert forall|m: int| a <= m < k implies #[trigger] s[m] != '\n' by {
        assert(t[m] == s[m]);
    }
    if a > 0 {
        assert(t[a - 1] == s[a - 1]);
    }
    assert forall|p: int| is_line_start(s, k, p) implies p == a by {
        if p < a {
            assert(t[a - 1] == s[a - 1]);
            assert(s[a - 1] != '\n');
        } else if p > a {
            assert(s[p - 1] != '\n');
        }
    }
}

proof fn lemma_first_line_end_unique(s: Seq<char>)
    ensures
        is_first_line_end(s, first_newline(s) as int),
        forall|e: int| is_first_line_end(s, e) ==> e == first_newline(s),
{
    lemma_first_newline(s);
    let f = first_newline(s) as int;
    assert forall|e: int| is_first_line_end(s, e) implies e == f by {
        if e < f {
            assert(s[e] != '\n');
        } else if e > f {
            assert(s[f] != '\n');
        }
    }
}

/// The caret's line of `v` (for the caret at `kc`) is
/// `v[ls..le]`: bounded by line breaks or the ends of the text.
#[verifier::spinoff_prover]
#[verifier::rlimit(50)]
proof fn lemma_caret_line(v: Seq<char>, kc: int)
    requires
        0 <= kc <= v.len(),
    ensures
        ({
            let ls = after_last_newline(v.take(kc)) as int;
            let le = kc + first_newline(v.skip(kc));
            &&& is_line_start(v, kc, ls)
            &&& kc <= le <= v.len()
            &&& forall|m: int| kc <= m < le ==> #[trigger] v[m] != '\n'
            &&& le < v.len() ==> v[le] == '\n'
            &&& forall|j: int| 0 <= j < v.len() ==> (on_caret_line(v, kc, j) <==> ls <= j < le)
        }),
{
    lemma_line_start_unique(v, kc);
    let ls = after_last_newline(v.take(kc)) as int;
    lemma_first_newline(v.skip(kc));
    let le = kc + first_newline(v.skip(kc));
    assert forall|m: int| kc <= m < le implies #[trigger] v[m] != '\n' by {
        assert(v.skip(kc)[m - kc] == v[m]);
    }
    if le < v.len() {
        assert(v.skip(kc)[le - kc] == v[le]);
    }
    assert forall|j: int| 0 <= j < v.len() implies (on_caret_line(v, kc, j) <==> ls <= j < le) by {
        if j < ls {
            assert(v[ls - 1] == '\n');
            if on_caret_line(v, kc, j) {
                assert(v[ls - 1] != '\n');
            }
        } else if j >= le {
            assert(v[le] == '\n');
            if on_caret_line(v, kc, j) {
                assert(v[le] != '\n');
            }
        }
    }
}

/// Double-Enter splits only on a blank line, and always does: it returns a
/// split exactly when every character on the caret's line, from the line
/// break before the caret to the one after it, is whitespace.
#[verifier::spinoff_prover]
pub proof fn lemma_blank_line_split_when(v: Seq<char>, kc: int)
    requires
        0 <= kc <= v.len(),
    ensures
        spec_blank_line_split(v, kc) is Some <==> (forall|j: int|
            0 <= j < v.len() && on_caret_line(v, kc, j) ==> is_ws(#[trigger] v[j])),
{
    lemma_caret_line(v, kc);
    let ls = after_last_newline(v.take(kc)) as int;
    let le = kc + first_newline(v.skip(kc));
    let line = v.subrange(ls, le);
    if is_blank(line) {
        assert forall|j: int| 0 <= j < v.len() && on_caret_line(v, kc, j) implies is_ws(
            #[trigger] v[j],
        ) by {
            assert(line[j - ls] == v[j]);
        }
    } else {
        let q = choose|q: int| 0 <= q < line.len() && !is_ws(#[trigger] line[q]);
        assert(line[q] == v[ls + q]);
        assert(on_caret_line(v, kc, ls + q));
    }
}

/// The double-Enter split keeps every character of the text but the blank
/// line: the head is the text before some position `p` at or before the
/// caret, followed only by line breaks; what lies between `p` and the tail
/// is blank; and the tail is the end of the text.
#[verifier::spinoff_prover]
pub proof fn lemma_blank_line_split_keeps(v: Seq<char>, kc: int)
    requires
        0 <= kc <= v.len(),
    ensures
        spec_blank_line_split(v, kc) matches Some((h, t)) ==> exists|p: int|
            #![trigger v.take(p)]
            0 <= p <= kc && p <= h.len() && t.len() <= v.len() && h.take(p) == v.take(p)
                && (forall|k: int| p <= k < h.len() ==> #[trigger] h[k] == '\n') && p <= v.len()
                - t.len() && is_blank(v.subrange(p, v.len() - t.len())) && v.skip(v.len() - t.len())
                == t,
{
    lemma_caret_line(v, kc);
    let ls = after_last_newline(v.take(kc)) as int;
    let le = kc + first_newline(v.skip(kc));
    let line = v.subrange(ls, le);
    if is_blank(line) {
        let rest = v.skip(le);
        let t = if rest.len() > 0 && rest[0] == '\n' {
            rest.drop_first()
        } else {
            rest
        };
        let h = spec_ensure_break(v.take(ls));
        let cut = v.len() - t.len();
        assert(h.take(ls) =~= v.take(ls));
        assert(forall|k: int| ls <= k < h.len() ==> #[trigger] h[k] == '\n');
        assert(is_blank(v.subrange(ls, cut))) by {
            assert forall|q: int| 0 <= q < cut - ls implies is_ws(#[trigger] v.subrange(ls, cut)[q]) by {
                if ls + q < le {
                    assert(line[q] == v[ls + q]);
                }
            }
        }
        assert(v.skip(cut) =~= t);
        assert(v.take(ls) == v.take(ls));
    }
}

/// Which neighbouring block an arrow key moves into, stated on the text:
/// Up leaves upward only from the block's first line (no line break before
/// the caret), Down leaves downward only from its last line (no line break
/// after the caret), Left only from the very start and Right only from the
/// very end; there must be a block on that side.
#[verifier::spinoff_prover]
#[verifier::rlimit(50)]
pub proof fn lemma_arrow_target_law(key: Arrow, v: Seq<char>, kc: int, i: int, n: int)
    requires
        0 <= kc <= v.len(),
    ensures
        spec_arrow_target(key, v, kc, i, n) == match key {
            Arrow::Up => if i > 0 && (forall|m: int| 0 <= m < kc ==> #[trigger] v[m] != '\n') {
                Some(i - 1)
            } else {
                None
            },
            Arrow::Down => if i + 1 < n && (forall|m: int| kc <= m < v.len() ==> #[trigger] v[m]
                != '\n') {
                Some(i + 1)
            } else {
                None
            },
            Arrow::Left => if i > 0 && kc == 0 {
                Some(i - 1)
            } else {
                None
            },
            Arrow::Right => if i + 1 < n && kc == v.len() {
                Some(i + 1)
            } else {
                None
            },
        },
{
    lemma_line_start_unique(v, kc);
    let a = after_last_newline(v.take(kc)) as int;
    lemma_first_newline(v.skip(kc));
    let f = first_newline(v.skip(kc)) as int;
    if a == 0 {
        assert(is_line_start(v, kc, 0));
    } else {
        assert(v[a - 1] == '\n');
    }
    if kc + f == v.len() {
        assert forall|m: int| kc <= m < v.len() implies #[trigger] v[m] != '\n' by {
            assert(v.skip(kc)[m - kc] == v[m]);
        }
    } else {
        assert(v.skip(kc)[f] == v[kc + f]);
    }
    if forall|m: int| 0 <= m < kc ==> #[trigger] v[m] != '\n' {
        assert(is_line_start(v, kc, 0));
    }
    if forall|m: int| kc <= m < v.len() ==> #[trigger] v[m] != '\n' {
        if kc + f < v.len() {
            assert(v[kc + f] != '\n');
        }
    }
}

/// Where the caret lands in the block moved into, stated on the text: with
/// `p` the start of the caret's line (so `kc - p` is its column), Up lands
/// on the target's last line at that column, cut to the line's length; Down
/// lands on the target's first line at that column, cut likewise; Left lands
/// at the target's end and Right at its start.
#[verifier::spinoff_prover]
#[verifier::rlimit(50)]
pub proof fn lemma_arrow_landing_law(key: Arrow, v: Seq<char>, kc: int, t: Seq<char>, p: int)
    requires
        0 <= kc <= v.len(),
        is_line_start(v, kc, p),
    ensures
        ({
            let land = spec_arrow_landing(key, t, kc - after_last_newline(v.take(kc)));
            &&& key == Arrow::Up ==> forall|q: int| #[trigger]
                is_line_start(t, t.len() as int, q) ==> land == q + if kc - p < t.len() - q {
                    kc - p
                } else {
                    t.len() - q
                }
            &&& key == Arrow::Down ==> forall|e: int| #[trigger]
                is_first_line_end(t, e) ==> land == if kc - p < e {
                    kc - p
                } else {
                    e
                }
            &&& key == Arrow::Left ==> land == t.len()
            &&& key == Arrow::Right ==> land == 0
        }),
{
    lemma_line_start_unique(v, kc);
    lemma_line_start_unique(t, t.len() as int);
    assert(t.take(t.len() as int) =~= t);
    lemma_first_line_end_unique(t);
}

/// Arrow navigation, stated on the text: Up leaves the block only from its
/// first line (no line break before the caret) and Left only from its start,
/// both into the block before; Down leaves only from its last line (no line
/// break after the caret) and Right only from its end, both into the block
/// after; there must be a block on that side. With `p` the start of the
/// caret's line, the caret lands at the same column `kc - p`, cut to the
/// line's length, on the target's last line (Up) or first line (Down), at
/// the target's end (Left) or at its start (Right).
#[verifier::spinoff_prover]
#[verifier::rlimit(50)]
pub proof fn lemma_arrow_nav_law(key: Arrow, v: Seq<char>, kc: int, i: int, bs: Seq<BlockModel>, p: int)
    requires
        0 <= kc <= v.len(),
        is_line_start(v, kc, p),
    ensures
        spec_arrow_nav(key, v, kc, i, bs) is Some <==> match key {
            Arrow::Up => i > 0 && forall|m: int| 0 <= m < kc ==> #[trigger] v[m] != '\n',
            Arrow::Down => i + 1 < bs.len() && forall|m: int| kc <= m < v.len() ==> #[trigger] v[m]
                != '\n',
            Arrow::Left => i > 0 && kc == 0,
            Arrow::Right => i + 1 < bs.len() && kc == v.len(),
        },
        spec_arrow_nav(key, v, kc, i, bs) matches Some((t, l)) ==> {
            let tx = bs[t].text;
            &&& t == (if key == Arrow::Up || key == Arrow::Left { i - 1 } else { i + 1 })
            &&& key == Arrow::Up ==> forall|q: int| #[trigger]
                is_line_start(tx, tx.len() as int, q) ==> l == q + if kc - p < tx.len() - q {
                    kc - p
                } else {
                    tx.len() - q
                }
            &&& key == Arrow::Down ==> forall|e: int| #[trigger]
                is_first_line_end(tx, e) ==> l == if kc - p < e {
                    kc - p
                } else {
                    e
                }
            &&& key == Arrow::Left ==> l == tx.len()
            &&& key == Arrow::Right ==> l == 0
        },
{
    lemma_arrow_target_law(key, v, kc, i, bs.len() as int);
    if let Some(t) = spec_arrow_target(key, v, kc, i, bs.len() as int) {
        lemma_arrow_landing_law(key, v, kc, bs[t].text, p);
    }
}

proof fn lemma_utf16_bmp(s: Seq<char>)
    requires
        forall|i: int| 0 <= i < s.len() ==> (#[trigger] s[i] as u32) < 0x10000,
    ensures
        utf16_len(s) == s.len(),
    decreases s.len(),
{
    if s.len() > 0 {
        assert forall|i: int| 0 <= i < s.drop_last().len() implies (#[trigger] s.drop_last()[i] as u32)
            < 0x10000 by {
            assert(s.drop_last()[i] == s[i]);
        }
        lemma_utf16_bmp(s.drop_last());
        assert((s.last() as u32) < 0x10000) by {
            assert(s.last() == s[s.len() - 1]);
        }
    }
}

proof fn lemma_utf16_seg(a: Seq<char>, b: Seq<char>)
    ensures
        utf16_len(a + b) == utf16_len(a) + utf16_len(b),
{
    crate::text::lemma_utf16_len_append(a, b);
}

/// Wrapping a selection, stated on the text: with the selection running
/// from character `ks` to `ke` (given as their UTF-16 offsets), the new text
/// is the text before the selection, the opening marker, the selected text,
/// the closing marker, and the rest; the new selection covers exactly the
/// selected text (the caret between the markers when nothing was selected),
/// or, for a link, exactly the `url` placeholder.
#[verifier::spinoff_prover]
#[verifier::rlimit(50)]
pub proof fn lemma_wrap_law(
    value: Seq<char>,
    ks: int,
    ke: int,
    open: Seq<char>,
    close: Seq<char>,
    select_url: bool,
)
    requires
        0 <= ks <= ke <= value.len(),
    ensures
        ({
            let start = utf16_len(value.take(ks)) as int;
            let end = utf16_len(value.take(ke)) as int;
            let new = spec_wrapped(value, start, end, open, close);
            let sel = spec_wrap_selection(start, end, utf16_len(open) as int, select_url);
            let a = utf16_char_index(new, sel.0) as int;
            let b = utf16_char_index(new, sel.1) as int;
            &&& new == value.take(ks) + open + value.subrange(ks, ke) + close + value.skip(ke)
            &&& !select_url ==> a == ks + open.len() && b == ke + open.len() && new.subrange(a, b)
                == value.subrange(ks, ke)
            &&& select_url && close == seq![']', '(', 'u', 'r', 'l', ')'] ==> new.subrange(a, b)
                == seq!['u', 'r', 'l']
        }),
{
    let start = utf16_len(value.take(ks)) as int;
    let end = utf16_len(value.take(ke)) as int;
    crate::positions::lemma_utf16_roundtrip(value, ks);
    crate::positions::lemma_utf16_roundtrip(value, ke);
    let new = spec_wrapped(value, start, end, open, close);
    let mid = value.subrange(ks, ke);
    assert(new == value.take(ks) + open + mid + close + value.skip(ke));
    assert(value.take(ke) =~= value.take(ks) + mid);
    lemma_utf16_seg(value.take(ks), mid);
    let p1 = ks + open.len();
    let p2 = ke + open.len();
    assert(new.take(p1) =~= value.take(ks) + open);
    lemma_utf16_seg(value.take(ks), open);
    assert(new.take(p2) =~= value.take(ks) + open + mid);
    lemma_utf16_seg(value.take(ks) + open, mid);
    crate::positions::lemma_utf16_roundtrip(new, p1);
    crate::positions::lemma_utf16_roundtrip(new, p2);
    assert(new.subrange(p1, p2) =~= mid);
    if select_url && close == seq![']', '(', 'u', 'r', 'l', ')'] {
        let p3 = p2 + 2;
        let p4 = p2 + 5;
        let c2 = seq![']', '('];
        let c5 = seq![']', '(', 'u', 'r', 'l'];
        assert(new.take(p3) =~= value.take(ks) + open + mid + c2);
        assert(new.take(p4) =~= value.take(ks) + open + mid + c5);
        lemma_utf16_seg(value.take(ks) + open + mid, c2);
        lemma_utf16_seg(value.take(ks) + open + mid, c5);
        lemma_utf16_bmp(c2);
        lemma_utf16_bmp(c5);
        crate::positions::lemma_utf16_roundtrip(new, p3);
        crate::positions::lemma_utf16_roundtrip(new, p4);
        assert(new.subrange(p3, p4) =~= seq!['u', 'r', 'l']);
    }
}

proof fn lemma_lower_char(x: char)
    ensures
        ({
            let l = if 'A' <= x && x <= 'Z' { ((x as u32) + 32) as char } else { x };
            &&& l == 'b' ==> x == 'b' || x == 'B'
            &&& l == 'i' ==> x == 'i' || x == 'I'
            &&& l == 'k' ==> x == 'k' || x == 'K'
        }),
{
    if 'A' <= x && x <= 'Z' {
        let n = (x as u32) + 32;
        assert(65 <= x as u32 <= 90);
        assert(((n as u32) as char) as u32 == n);
    }
}

/// The inline-format keys: typed without modifiers, each of `*`, `_`, `` ` ``
/// and `~` wraps a selection in itself, and no other key typed without
/// modifiers wraps anything; with Alt nothing wraps; with Cmd/Ctrl (no Alt)
/// `b`/`B` is bold, `i`/`I` italic, `k`/`K` a link that selects its `url`
/// placeholder, and no other ASCII key wraps.
#[verifier::spinoff_prover]
#[verifier::rlimit(50)]
pub proof fn lemma_wrap_for_key_law(c: Seq<char>, cmd: bool, alt: bool)
    ensures
        !cmd && !alt && c.len() == 1 && (c[0] == '*' || c[0] == '_' || c[0] == '`' || c[0] == '~')
            ==> spec_wrap_for_key(c, cmd, alt) == Some((c, c, false, true)),
        !cmd && !alt && !(c.len() == 1 && (c[0] == '*' || c[0] == '_' || c[0] == '`' || c[0]
            == '~')) ==> spec_wrap_for_key(c, cmd, alt) is None,
        alt ==> spec_wrap_for_key(c, cmd, alt) is None,
        cmd && !alt && (c == seq!['b'] || c == seq!['B']) ==> spec_wrap_for_key(c, cmd, alt)
            == Some((seq!['*', '*'], seq!['*', '*'], false, false)),
        cmd && !alt && (c == seq!['i'] || c == seq!['I']) ==> spec_wrap_for_key(c, cmd, alt)
            == Some((seq!['*'], seq!['*'], false, false)),
        cmd && !alt && (c == seq!['k'] || c == seq!['K']) ==> spec_wrap_for_key(c, cmd, alt)
            == Some((seq!['['], seq![']', '(', 'u', 'r', 'l', ')'], true, false)),
        cmd && !alt && all_ascii(c) && !(c.len() == 1 && (c[0] == 'b' || c[0] == 'B' || c[0]
            == 'i' || c[0] == 'I' || c[0] == 'k' || c[0] == 'K')) ==> spec_wrap_for_key(
            c,
            cmd,
            alt,
        ) is None,
{
    if c.len() == 1 {
        assert(c =~= seq![c[0]]);
    }
    if cmd && !alt && all_ascii(c) {
        let l = ascii_lower(c);
        assert(l.len() == c.len());
        if c.len() == 1 {
            assert(l[0] == (if 'A' <= c[0] && c[0] <= 'Z' { ((c[0] as u32) + 32) as char } else { c[0] }));
            lemma_lower_char(c[0]);
            if l == seq!['b'] || l == seq!['i'] || l == seq!['k'] {
                assert(l[0] == seq!['b'][0] || l[0] == seq!['i'][0] || l[0] == seq!['k'][0]);
            }
        } else {
            if l == seq!['b'] || l == seq!['i'] || l == seq!['k'] {
                assert(l.len() == 1);
            }
        }
        if c == seq!['B'] {
            assert(l =~= seq!['b']);
        }
        if c == seq!['b'] {
            assert(l =~= seq!['b']);
        }
        if c == seq!['I'] || c == seq!['i'] {
            assert(l =~= seq!['i']);
        }
        if c == seq!['K'] || c == seq!['k'] {
            assert(l =~= seq!['k']);
        }
    }
    if cmd && !alt && (c == seq!['b'] || c == seq!['B'] || c == seq!['i'] || c == seq!['I'] || c
        == seq!['k'] || c == seq!['K']) {
        assert(all_ascii(c));
    }
}

} // verus!
