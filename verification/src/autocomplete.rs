//! Inline autocomplete for a `[[/` trigger typed inside a block: detecting
//! the trigger before the caret, splicing an accepted completion onto its own
//! line, and the popup's key handling.
use vstd::prelude::*;
use crate::text::{
    byte_offset, char_utf8_width, is_boundary, lemma_byte_offset_mono,
    lemma_byte_offset_injective, push_range, push_str, str_byte_len, string_of, string_push,
    to_chars, utf8_len,
};

verus! {

/// One offered completion. `label` and `detail` are display-only; `insert`
/// is the literal text spliced in at the caret when the item is accepted.
#[derive(Debug, Clone, PartialEq)]
pub struct CompletionItem {
    pub label: String,
    pub detail: String,
    pub insert: String,
}

/// A `[[/…` trigger found before the caret: the byte offset of its opening
/// `[` and the `[A-Za-z0-9_-]*` query typed after `[[/`.
#[derive(Debug, Clone, PartialEq, Eq)]
pub struct TriggerMatch {
    /// Byte offset of the first `[` of `[[/` in the source.
    pub start: usize,
    /// The run after `[[/`, up to the caret (may be empty).
    pub query: String,
}

/// What the popup did with a key, so the caller knows whether to run its
/// own handling.
pub enum KeyOutcome {
    /// The popup was closed or inactive; handle the key normally.
    Ignored,
    /// The key drove the popup (navigate/dismiss) and was consumed.
    Consumed,
    /// An item was accepted; the caller must commit `value`.
    Accepted { value: String },
}

/// Characters allowed in an embed name (`[[/name …]]`): ASCII letters and
/// digits, `-` and `_`.
#[verifier::opaque]
pub open spec fn query_char(c: char) -> bool {
    ||| ('a' <= c && c <= 'z')
    ||| ('A' <= c && c <= 'Z')
    ||| ('0' <= c && c <= '9')
    ||| c == '-'
    ||| c == '_'
}

/// True for the characters allowed in an embed name: the query only stays
/// open while it is one of these.
pub fn is_query_char(c: char) -> (r: bool)
    ensures
        r == query_char(c),
{
    reveal(query_char);
    ('a' <= c && c <= 'z') || ('A' <= c && c <= 'Z') || ('0' <= c && c <= '9') || c == '-' || c
        == '_'
}

/// The trigger token `[[/`.
pub open spec fn trigger_token() -> Seq<char> {
    seq!['[', '[', '/']
}

/// Index just after the last `\n` of `s`, or 0 when there is none.
pub open spec fn after_last_newline(s: Seq<char>) -> nat
    decreases s.len(),
{
    if s.len() == 0 {
        0
    } else if s.last() == '\n' {
        s.len()
    } else {
        after_last_newline(s.drop_last())
    }
}

/// `s` holds `[[/` at index `j`.
pub open spec fn has_token_at(s: Seq<char>, j: int) -> bool {
    0 <= j && j + 3 <= s.len() && s.subrange(j, j + 3) == trigger_token()
}

/// Start of the rightmost `[[/` in `s` (`s.rfind("[[/")`).
pub open spec fn last_trigger(s: Seq<char>) -> Option<nat>
    decreases s.len(),
{
    if s.len() < 3 {
        None
    } else if has_token_at(s, s.len() - 3) {
        Some((s.len() - 3) as nat)
    } else {
        last_trigger(s.drop_last())
    }
}

/// Character index of the byte offset `b` (the end when `b` is at or past
/// the end).
pub open spec fn char_index(s: Seq<char>, b: int) -> int {
    if b >= utf8_len(s) {
        s.len() as int
    } else {
        choose|k: int| 0 <= k <= s.len() && byte_offset(s, k) == b
    }
}

/// The trigger before character index `kc` of `text`: the character index of
/// its `[[/` and its query. The `[[/` must be on the caret's own line and
/// everything between it and the caret must be query characters.
pub open spec fn spec_find_trigger(text: Seq<char>, kc: int) -> Option<(nat, Seq<char>)> {
    let pre = text.take(kc);
    let ls = after_last_newline(pre);
    let seg = pre.skip(ls as int);
    match last_trigger(seg) {
        None => None,
        Some(rel) => {
            let q = seg.skip(rel + 3int);
            if forall|i: int| 0 <= i < q.len() ==> query_char(#[trigger] q[i]) {
                Some((ls + rel, q))
            } else {
                None
            }
        },
    }
}

/// Facts about [`after_last_newline`]: it is within `s`, no `\n` follows it,
/// and the character just before it is a `\n`.
pub proof fn lemma_after_last_newline(s: Seq<char>)
    ensures
        after_last_newline(s) <= s.len(),
        forall|i: int| after_last_newline(s) <= i < s.len() ==> #[trigger] s[i] != '\n',
        after_last_newline(s) > 0 ==> s[after_last_newline(s) - 1] == '\n',
    decreases s.len(),
{
    if s.len() > 0 && s.last() != '\n' {
        lemma_after_last_newline(s.drop_last());
        assert forall|i: int| after_last_newline(s) <= i < s.len() implies #[trigger] s[i]
            != '\n' by {
            if i < s.len() - 1 {
                assert(s[i] == s.drop_last()[i]);
            }
        }
        if after_last_newline(s) > 0 {
            assert(s[after_last_newline(s) - 1] == s.drop_last()[after_last_newline(s) - 1]);
        }
    }
}

proof fn lemma_last_trigger(s: Seq<char>)
    ensures
        last_trigger(s) matches Some(r) ==> has_token_at(s, r as int) && forall|j: int|
            r < j ==> !#[trigger] has_token_at(s, j),
        last_trigger(s) is None ==> forall|j: int| !#[trigger] has_token_at(s, j),
    decreases s.len(),
{
    if s.len() >= 3 && !has_token_at(s, s.len() - 3) {
        let d = s.drop_last();
        lemma_last_trigger(d);
        assert forall|j: int| j + 3 < s.len() implies has_token_at(s, j) == has_token_at(d, j) by {
            if 0 <= j {
                assert(s.subrange(j, j + 3) =~= d.subrange(j, j + 3));
            }
        }
    }
}

/// Character index of byte offset `b` in `v`.
pub fn char_index_at_byte(v: &Vec<char>, b: usize) -> (k: usize)
    requires
        utf8_len(v@) <= usize::MAX,
        b >= utf8_len(v@) || is_boundary(v@, b as int),
    ensures
        k == char_index(v@, b as int),
        k <= v.len(),
{
    proof {
        assert(v@.take(v@.len() as int) =~= v@);
    }
    let mut acc: usize = 0;
    let mut i: usize = 0;
    while i < v.len() && acc < b
        invariant
            0 <= i <= v.len(),
            acc == byte_offset(v@, i as int),
            acc <= utf8_len(v@),
            utf8_len(v@) <= usize::MAX,
            forall|j: int| 0 <= j < i ==> byte_offset(v@, j) < b,
            v@.take(v@.len() as int) == v@,
        decreases v.len() - i,
    {
        proof {
            lemma_byte_offset_mono(v@, i + 1, v@.len() as int);
            lemma_byte_offset_mono(v@, i as int, i + 1);
            assert(v@.take(i + 1).drop_last() =~= v@.take(i as int));
        }
        acc = acc + char_utf8_width(v[i]);
        i = i + 1;
    }
    proof {
        lemma_byte_offset_mono(v@, i as int, v@.len() as int);
        let k = char_index(v@, b as int);
        if (b as int) < utf8_len(v@) {
            if k < i {
                assert(byte_offset(v@, k) < b);
            } else if k > i {
                lemma_byte_offset_mono(v@, i as int, k);
            }
        }
    }
    i
}

/// Index just after the last `\n` in `v[..end]`.
pub fn after_last_newline_before(v: &Vec<char>, end: usize) -> (r: usize)
    requires
        end <= v.len(),
    ensures
        r == after_last_newline(v@.take(end as int)),
{
    let ghost s = v@.take(end as int);
    proof {
        lemma_after_last_newline(s);
    }
    let mut i: usize = end;
    while i > 0 && v[i - 1] != '\n'
        invariant
            i <= end <= v.len(),
            s == v@.take(end as int),
            forall|j: int| i <= j < end ==> v@[j] != '\n',
        decreases i,
    {
        i = i - 1;
    }
    proof {
        let a = after_last_newline(s) as int;
        if a < i {
            assert(s[i - 1] == v@[i - 1]);
        } else if a > i {
            assert(s[a - 1] == v@[a - 1]);
        }
    }
    i
}

/// Whether `v[j..j+3]` is `[[/`.
fn trigger_at(v: &Vec<char>, j: usize) -> (r: bool)
    requires
        j + 3 <= v.len(),
    ensures
        r == has_token_at(v@, j as int),
{
    let r = v[j] == '[' && v[j + 1] == '[' && v[j + 2] == '/';
    proof {
        if r {
            assert(v@.subrange(j as int, j + 3) =~= trigger_token());
        } else {
            assert(v@.subrange(j as int, j + 3)[0] == v@[j as int]);
            assert(v@.subrange(j as int, j + 3)[1] == v@[j + 1]);
            assert(v@.subrange(j as int, j + 3)[2] == v@[j + 2]);
        }
    }
    r
}

/// Find a `[[/` trigger immediately before `caret_byte`, on the caret's own
/// line. `None` unless the run between `[[/` and the caret is a valid
/// (possibly empty) embed-name query — so a space, `]`, or a newline closes
/// the trigger. `caret_byte` is clamped to the text and must fall on a
/// character boundary.
#[verifier::loop_isolation(false)]
pub fn find_trigger(text: &str, caret_byte: usize) -> (r: Option<TriggerMatch>)
    requires
        utf8_len(text@) <= usize::MAX,
        caret_byte >= utf8_len(text@) || is_boundary(text@, caret_byte as int),
    ensures
        match spec_find_trigger(text@, char_index(text@, caret_byte as int)) {
            None => r is None,
            Some((k, q)) => r matches Some(t) && t.start == byte_offset(text@, k as int)
                && t.query@ == q,
        },
{
    let v = to_chars(text);
    let kc = char_index_at_byte(&v, caret_byte);
    let ls = after_last_newline_before(&v, kc);
    let ghost pre = v@.take(kc as int);
    let ghost seg = pre.skip(ls as int);
    proof {
        lemma_after_last_newline(pre);
        lemma_last_trigger(seg);
    }
    // Rightmost `[[/` in v[ls..kc].
    if kc - ls < 3 {
        return None;
    }
    let mut j: usize = kc - 3;
    let mut found = trigger_at(&v, j);
    while !found && j > ls
        invariant
            ls <= j,
            j + 3 <= kc <= v.len(),
            found == has_token_at(v@, j as int),
            forall|m: int| j < m && m + 3 <= kc ==> !#[trigger] has_token_at(v@, m),
        decreases j,
    {
        j = j - 1;
        found = trigger_at(&v, j);
    }
    let rel = j - ls;
    proof {
        assert forall|m: int| 0 <= m && m + 3 <= seg.len() implies #[trigger] has_token_at(seg, m)
            == has_token_at(v@, ls + m) by {
            assert(seg.subrange(m, m + 3) =~= v@.subrange(ls + m, ls + m + 3));
        }
    }
    if !found {
        proof {
            assert(has_token_at(seg, 0) == has_token_at(v@, ls as int));
            if let Some(m) = last_trigger(seg) {
                assert(has_token_at(seg, m as int) == has_token_at(v@, ls + m));
            }
        }
        return None;
    }
    proof {
        assert(has_token_at(seg, rel as int) == has_token_at(v@, j as int));
        if let Some(m) = last_trigger(seg) {
            assert(has_token_at(seg, m as int) == has_token_at(v@, ls + m));
        }
    }
    let qs = j + 3;
    let mut i: usize = qs;
    while i < kc
        invariant
            qs <= i <= kc <= v.len(),
            forall|m: int| qs <= m < i ==> query_char(v@[m]),
        decreases kc - i,
    {
        if !is_query_char(v[i]) {
            proof {
                let q = seg.skip(rel + 3);
                assert(q[i - qs] == v@[i as int]);
            }
            return None;
        }
        i = i + 1;
    }
    let query = string_of(&v, qs, kc);
    let start = crate::blocks::prefix_byte_len(&v, j);
    proof {
        let q = seg.skip(rel + 3);
        assert(q =~= v@.subrange(qs as int, kc as int));
        assert forall|m: int| 0 <= m < q.len() implies query_char(#[trigger] q[m]) by {
            assert(q[m] == v@[qs + m]);
        }
    }
    Some(TriggerMatch { start, query })
}

/// The splice performed by [`apply_completion`], on characters: the text
/// before character `ks`, a `\n` when other text abuts on the left, the
/// snippet, a `\n` when other text abuts on the right, and the text from
/// character `kc` on.
pub open spec fn spliced(text: Seq<char>, ks: int, kc: int, insert: Seq<char>) -> Seq<char> {
    let prefix = text.take(ks);
    let suffix = text.skip(kc);
    prefix + lead_break(prefix) + insert + trail_break(suffix) + suffix
}

/// `\n` when `prefix` is non-empty and does not end a line.
pub open spec fn lead_break(prefix: Seq<char>) -> Seq<char> {
    if prefix.len() > 0 && prefix.last() != '\n' {
        seq!['\n']
    } else {
        Seq::empty()
    }
}

/// `\n` when `suffix` is non-empty and does not start with a line break.
pub open spec fn trail_break(suffix: Seq<char>) -> Seq<char> {
    if suffix.len() > 0 && suffix[0] != '\n' {
        seq!['\n']
    } else {
        Seq::empty()
    }
}

/// The caret byte that [`apply_completion`] splices at: `caret_byte`
/// clamped into `start ..= text length`.
pub open spec fn clamp_caret(caret_byte: int, start: int, len: int) -> int {
    if caret_byte < start {
        start
    } else if caret_byte > len {
        len
    } else {
        caret_byte
    }
}

/// Replace `text[trigger.start..caret_byte]` with `insert`, forcing the
/// snippet onto its own line (a `\n` is added before/after only when
/// non-newline text abuts it). Returns the new text and the new caret byte
/// offset (the end of the inserted snippet).
#[verifier::spinoff_prover]
#[verifier::rlimit(30)]
pub fn apply_completion(text: &str, trigger: &TriggerMatch, caret_byte: usize, insert: &str) -> (r: (
    String,
    usize,
))
    requires
        utf8_len(text@) + utf8_len(insert@) + 2 <= usize::MAX,
        is_boundary(text@, trigger.start as int),
        is_boundary(text@, clamp_caret(caret_byte as int, trigger.start as int, utf8_len(text@) as int)),
    ensures
        ({
            let ks = char_index(text@, trigger.start as int);
            let kc = char_index(
                text@,
                clamp_caret(caret_byte as int, trigger.start as int, utf8_len(text@) as int),
            );
            &&& r.0@ == spliced(text@, ks, kc, insert@)
            &&& r.1 == trigger.start + lead_break(text@.take(ks)).len() + utf8_len(insert@)
            &&& r.1 == utf8_len(r.0@.take(ks + lead_break(text@.take(ks)).len() + insert@.len()))
        }),
{
    let v = to_chars(text);
    let len = str_byte_len(text);
    let cb = if caret_byte < trigger.start {
        trigger.start
    } else if caret_byte > len {
        len
    } else {
        caret_byte
    };
    proof {
        let k = choose|k: int| 0 <= k <= v@.len() && byte_offset(v@, k) == trigger.start;
        lemma_byte_offset_mono(v@, k, v@.len() as int);
        assert(v@.take(v@.len() as int) =~= v@);
    }
    let ks = char_index_at_byte(&v, trigger.start);
    let kc = char_index_at_byte(&v, cb);
    proof {
        let k1 = choose|k: int| 0 <= k <= v@.len() && byte_offset(v@, k) == trigger.start;
        let k2 = choose|k: int| 0 <= k <= v@.len() && byte_offset(v@, k) == cb;
        assert(byte_offset(v@, v@.len() as int) == utf8_len(v@));
        if trigger.start as int >= utf8_len(v@) {
            lemma_byte_offset_injective(v@, k1, v@.len() as int);
        }
        if cb as int >= utf8_len(v@) {
            lemma_byte_offset_injective(v@, k2, v@.len() as int);
        }
        if k2 < k1 {
            lemma_byte_offset_mono(v@, k2, k1);
        }
    }
    let mut out = string_of(&v, 0, ks);
    let lead: usize = if ks > 0 && v[ks - 1] != '\n' {
        string_push(&mut out, '\n');
        1
    } else {
        0
    };
    push_str(&mut out, insert);
    if kc < v.len() && v[kc] != '\n' {
        string_push(&mut out, '\n');
    }
    push_range(&mut out, &v, kc, v.len());
    let ins_len = str_byte_len(insert);
    proof {
        let prefix = v@.take(ks as int);
        let suffix = v@.skip(kc as int);
        assert(prefix =~= v@.subrange(0, ks as int));
        if ks > 0 {
            assert(prefix.last() == v@[ks - 1]);
        }
        if kc < v@.len() {
            assert(suffix[0] == v@[kc as int]);
        }
        assert(lead == lead_break(prefix).len());
        assert(out@ =~= spliced(v@, ks as int, kc as int, insert@));
        let lb = lead_break(prefix);
        assert(out@.take(ks + lb.len() + insert@.len()) =~= prefix + lb + insert@);
        crate::text::lemma_utf8_len_append(prefix + lb, insert@);
        crate::text::lemma_utf8_len_append(prefix, lb);
        assert(utf8_len(Seq::<char>::empty()) == 0);
        if lb.len() == 1 {
            assert(lb.drop_last() =~= Seq::<char>::empty());
            assert(lb.last() == '\n');
            assert(crate::text::utf8_width('\n') == 1);
        } else {
            assert(lb =~= Seq::<char>::empty());
        }
        assert(utf8_len(lb) == lb.len());
        assert(byte_offset(v@, ks as int) == trigger.start);
    }
    (out, trigger.start + lead + ins_len)
}

/// A key as the completion popup sees it.
pub enum PopupKey {
    ArrowDown,
    ArrowUp,
    Enter,
    Tab,
    Escape,
    Other,
}

/// What the popup does with a key.
#[derive(Debug, Clone, Copy, PartialEq, Eq)]
pub enum PopupAction {
    /// Not for the popup: the textarea handles the key.
    Ignore,
    /// Highlight item `i` (the key is consumed).
    Select(usize),
    /// Accept item `i` (the key is consumed).
    Accept(usize),
    /// Close the popup without inserting (the key is consumed).
    Dismiss,
}

/// The popup's key handling, as a function of its state.
pub open spec fn spec_popup_key(open: bool, len: nat, selected: Option<usize>, key: PopupKey) -> PopupAction {
    if !open || len == 0 {
        PopupAction::Ignore
    } else {
        match key {
            PopupKey::ArrowDown => PopupAction::Select(
                match selected {
                    None => 0,
                    Some(i) => ((i + 1) % (len as int)) as usize,
                },
            ),
            PopupKey::ArrowUp => PopupAction::Select(
                match selected {
                    None => (len - 1) as usize,
                    Some(i) => ((i + len - 1) % (len as int)) as usize,
                },
            ),
            PopupKey::Enter | PopupKey::Tab => match selected {
                Some(i) => PopupAction::Accept(i),
                None => PopupAction::Ignore,
            },
            PopupKey::Escape => PopupAction::Dismiss,
            PopupKey::Other => PopupAction::Ignore,
        }
    }
}

/// One step around a ring of `len` slots from slot `i % len`: forward is
/// `(i + 1) % len`, backward is `(i + len - 1) % len`.
proof fn lemma_ring_step(i: int, len: int)
    requires
        0 <= i,
        0 < len,
    ensures
        (i + 1) % len == (if i % len + 1 == len { 0 } else { i % len + 1 }),
        (i + len - 1) % len == (if i % len == 0 { len - 1 } else { i % len - 1 }),
{
    let q = i / len;
    let r = i % len;
    vstd::arithmetic::div_mod::lemma_fundamental_div_mod(i, len);
    vstd::arithmetic::div_mod::lemma_mod_bound(i, len);
    assert(i + 1 == len * q + (r + 1));
    vstd::arithmetic::div_mod::lemma_mod_multiples_vanish(q, r + 1, len);
    assert(i + len - 1 == len * q + (r + len - 1));
    vstd::arithmetic::div_mod::lemma_mod_multiples_vanish(q, r + len - 1, len);
    if r + 1 < len {
        vstd::arithmetic::div_mod::lemma_small_mod((r + 1) as nat, len as nat);
    } else {
        vstd::arithmetic::div_mod::lemma_mod_add_multiples_vanish(0, len);
        vstd::arithmetic::div_mod::lemma_small_mod(0, len as nat);
    }
    if r == 0 {
        vstd::arithmetic::div_mod::lemma_small_mod((len - 1) as nat, len as nat);
    } else {
        vstd::arithmetic::div_mod::lemma_mod_add_multiples_vanish(r - 1, len);
        vstd::arithmetic::div_mod::lemma_small_mod((r - 1) as nat, len as nat);
    }
}

/// Handle a keydown while the popup may be open: ↓/↑ move into and around
/// the list (wrapping), Enter/Tab accept only once an item is highlighted,
/// Esc dismisses; anything else falls through to the textarea.
pub fn popup_keydown(open: bool, len: usize, selected: Option<usize>, key: PopupKey) -> (r:
    PopupAction)
    ensures
        r == spec_popup_key(open, len as nat, selected, key),
{
    if !open || len == 0 {
        return PopupAction::Ignore;
    }
    match key {
        PopupKey::ArrowDown => PopupAction::Select(
            match selected {
                None => 0,
                Some(i) => {
                    proof {
                        lemma_ring_step(i as int, len as int);
                    }
                    let j = i % len;
                    if j + 1 == len {
                        0
                    } else {
                        j + 1
                    }
                },
            },
        ),
        PopupKey::ArrowUp => PopupAction::Select(
            match selected {
                None => len - 1,
                Some(i) => {
                    proof {
                        lemma_ring_step(i as int, len as int);
                    }
                    let j = i % len;
                    if j == 0 {
                        len - 1
                    } else {
                        j - 1
                    }
                },
            },
        ),
        PopupKey::Enter | PopupKey::Tab => match selected {
            Some(i) => PopupAction::Accept(i),
            None => PopupAction::Ignore,
        },
        PopupKey::Escape => PopupAction::Dismiss,
        PopupKey::Other => PopupAction::Ignore,
    }
}

/// The popup's state for one textarea: whether it is open, the offered
/// items, and the highlighted index (`None` while the caret is still in the
/// text, before the first ↓/↑ enters the list).
pub struct Popup {
    pub open: bool,
    pub items: Vec<CompletionItem>,
    pub selected: Option<usize>,
}

impl Popup {
    /// The popup is never open without items, a highlighted index lies in the
    /// list, and a closed popup holds nothing.
    pub open spec fn wf(&self) -> bool {
        &&& self.open ==> self.items.len() > 0
        &&& !self.open ==> self.items.len() == 0 && self.selected is None
        &&& self.selected matches Some(i) ==> i < self.items.len()
    }

    /// Closed, with no items and nothing highlighted.
    pub open spec fn is_dismissed(&self) -> bool {
        !self.open && self.items.len() == 0 && self.selected is None
    }

    /// A closed popup.
    pub fn dismissed() -> (p: Popup)
        ensures
            p.is_dismissed(),
            p.wf(),
    {
        Popup { open: false, items: Vec::new(), selected: None }
    }

    /// Close the popup and clear its state.
    pub fn dismiss(&mut self)
        ensures
            final(self).is_dismissed(),
            final(self).wf(),
    {
        self.open = false;
        self.items = Vec::new();
        self.selected = None;
    }

    /// Refresh after the text changed. `found` is `None` when no trigger is
    /// before the caret, else the candidates offered for its query. The popup
    /// opens, with nothing highlighted, exactly when there are candidates;
    /// otherwise it is dismissed.
    pub fn after_input(&mut self, found: Option<Vec<CompletionItem>>)
        ensures
            final(self).wf(),
            match found {
                Some(items) if items.len() > 0 => final(self).open && final(self).items@
                    == items@ && final(self).selected is None,
                _ => final(self).is_dismissed(),
            },
    {
        match found {
            Some(items) => {
                if items.len() == 0 {
                    self.dismiss();
                } else {
                    self.items = items;
                    self.selected = None;
                    self.open = true;
                }
            },
            None => self.dismiss(),
        }
    }

    /// Handle a key with [`popup_keydown`]'s rules and apply what it decides
    /// to the popup: a selection moves the highlight; an acceptance (whose
    /// item the caller splices in) and a dismissal close the popup; anything
    /// else leaves it as it is.
    pub fn on_key(&mut self, key: PopupKey) -> (a: PopupAction)
        requires
            old(self).wf(),
        ensures
            a == spec_popup_key(old(self).open, old(self).items.len() as nat, old(self).selected, key),
            final(self).wf(),
            match a {
                PopupAction::Select(i) => final(self).open == old(self).open && final(self).items@
                    == old(self).items@ && final(self).selected == Some(i),
                PopupAction::Accept(_) | PopupAction::Dismiss => final(self).is_dismissed(),
                PopupAction::Ignore => *final(self) == *old(self),
            },
    {
        let a = popup_keydown(self.open, self.items.len(), self.selected, key);
        proof {
            lemma_popup_stays_in_list(self.open, self.items.len() as nat, self.selected, key);
        }
        match a {
            PopupAction::Select(i) => {
                self.selected = Some(i);
            },
            PopupAction::Accept(_) | PopupAction::Dismiss => {
                self.dismiss();
            },
            PopupAction::Ignore => {},
        }
        a
    }
}

/// Pressing ↓ then ↑, or ↑ then ↓, on an open popup with item `i`
/// highlighted comes back to item `i`.
pub proof fn lemma_popup_down_up(len: nat, i: usize)
    requires
        i < len <= usize::MAX,
    ensures
        (spec_popup_key(true, len, Some(i), PopupKey::ArrowDown) matches PopupAction::Select(j)
            && spec_popup_key(true, len, Some(j), PopupKey::ArrowUp) == PopupAction::Select(i)),
        (spec_popup_key(true, len, Some(i), PopupKey::ArrowUp) matches PopupAction::Select(j)
            && spec_popup_key(true, len, Some(j), PopupKey::ArrowDown) == PopupAction::Select(i)),
{
    let n = len as int;
    vstd::arithmetic::div_mod::lemma_small_mod(i as nat, len);
    lemma_ring_step(i as int, n);
    let d = (i + 1) % n;
    let u = (i + n - 1) % n;
    lemma_ring_step(d, n);
    lemma_ring_step(u, n);
    vstd::arithmetic::div_mod::lemma_small_mod(d as nat, len);
    vstd::arithmetic::div_mod::lemma_small_mod(u as nat, len);
}

/// An accepted completion always stands on its own line: the snippet sits
/// intact in the result, with a line break (or the start of the text) right
/// before it and a line break (or the end of the text) right after it.
pub proof fn lemma_completion_own_line(text: Seq<char>, ks: int, kc: int, insert: Seq<char>)
    requires
        0 <= ks <= kc <= text.len(),
    ensures
        ({
            let r = spliced(text, ks, kc, insert);
            let p = ks + lead_break(text.take(ks)).len();
            &&& r.subrange(p, p + insert.len()) == insert
            &&& p > 0 ==> r[p - 1] == '\n'
            &&& p + insert.len() < r.len() ==> r[p + insert.len()] == '\n'
        }),
{
    let prefix = text.take(ks);
    let suffix = text.skip(kc);
    let a = prefix + lead_break(prefix);
    let r = spliced(text, ks, kc, insert);
    let p = ks + lead_break(prefix).len();
    assert(r == a + insert + trail_break(suffix) + suffix);
    assert(r.subrange(p, p + insert.len()) =~= insert);
    if p > 0 {
        assert(r[p - 1] == a[p - 1]);
    }
    if p + insert.len() < r.len() {
        let b = trail_break(suffix) + suffix;
        assert(r[p + insert.len()] == b[0]);
    }
}

/// Navigating the popup never highlights or accepts an item outside the
/// list, provided the highlighted item was in it.
pub proof fn lemma_popup_stays_in_list(open: bool, len: nat, selected: Option<usize>, key: PopupKey)
    requires
        selected matches Some(i) ==> i < len,
    ensures
        spec_popup_key(open, len, selected, key) matches PopupAction::Select(i) ==> i < len,
        spec_popup_key(open, len, selected, key) matches PopupAction::Accept(i) ==> i < len,
{
}

/// The embed-name alphabet, stated on characters: ASCII letters, ASCII
/// digits, `-` and `_`, and nothing else.
pub proof fn lemma_query_char_law(c: char)
    ensures
        query_char(c) <==> (('a' <= c <= 'z') || ('A' <= c <= 'Z') || ('0' <= c <= '9') || c == '-'
            || c == '_'),
{
    reveal(query_char);
}

/// `text` holds `[[/` at character `j`.
pub open spec fn token_at(text: Seq<char>, j: int) -> bool {
    0 <= j && j + 3 <= text.len() && text[j] == '[' && text[j + 1] == '[' && text[j + 2] == '/'
}

/// `k` is the last `[[/` before the caret at `kc`, on the caret's line.
pub open spec fn last_token_on_line(text: Seq<char>, kc: int, k: int) -> bool {
    &&& token_at(text, k)
    &&& k + 3 <= kc
    &&& forall|m: int| k <= m < kc ==> #[trigger] text[m] != '\n'
    &&& forall|j: int| k < j && j + 3 <= kc ==> !#[trigger] token_at(text, j)
}

proof fn lemma_token_at(s: Seq<char>, j: int)
    ensures
        has_token_at(s, j) == token_at(s, j),
{
    if 0 <= j && j + 3 <= s.len() {
        if token_at(s, j) {
            assert(s.subrange(j, j + 3) =~= trigger_token());
        } else if has_token_at(s, j) {
            assert(s.subrange(j, j + 3)[0] == s[j]);
            assert(s.subrange(j, j + 3)[1] == s[j + 1]);
            assert(s.subrange(j, j + 3)[2] == s[j + 2]);
        }
    }
}

/// Trigger detection, stated on the text: a trigger is found only at the
/// last `[[/` before the caret on the caret's own line, and it is found there
/// exactly when everything between it and the caret is an embed-name
/// character; the query is that text.
#[verifier::spinoff_prover]
#[verifier::rlimit(50)]
pub proof fn lemma_find_trigger_law(text: Seq<char>, kc: int)
    requires
        0 <= kc <= text.len(),
    ensures
        forall|k: int|
            #[trigger] last_token_on_line(text, kc, k) ==> spec_find_trigger(text, kc) == if (forall|
                m: int,
            | k + 3 <= m < kc ==> query_char(#[trigger] text[m])) {
                Some((k as nat, text.subrange(k + 3, kc)))
            } else {
                None
            },
        (forall|k: int| !#[trigger] last_token_on_line(text, kc, k)) ==> spec_find_trigger(text, kc)
            is None,
{
    let pre = text.take(kc);
    lemma_after_last_newline(pre);
    let ls = after_last_newline(pre) as int;
    let seg = pre.skip(ls);
    lemma_last_trigger(seg);
    assert forall|j: int| #[trigger] has_token_at(seg, j) == token_at(text, ls + j) && (0 <= j ==> (
    token_at(text, ls + j) ==> ls + j + 3 <= kc)) || !(0 <= j && j + 3 <= seg.len()) by {
        lemma_token_at(seg, j);
        if 0 <= j && j + 3 <= seg.len() {
            assert(seg[j] == text[ls + j]);
            assert(seg[j + 1] == text[ls + j + 1]);
            assert(seg[j + 2] == text[ls + j + 2]);
        }
    }
    assert forall|k: int| #[trigger] last_token_on_line(text, kc, k) implies k - ls == last_trigger(
        seg,
    )->0 && last_trigger(seg) is Some by {
        if k < ls {
            assert(text[ls - 1] == pre[ls - 1]);
        }
        lemma_token_at(seg, k - ls);
        assert(seg[k - ls] == text[k]);
        assert(seg[k - ls + 1] == text[k + 1]);
        assert(seg[k - ls + 2] == text[k + 2]);
        assert(has_token_at(seg, k - ls));
        let r = last_trigger(seg)->0 as int;
        if r > k - ls {
            lemma_token_at(seg, r);
            assert(seg[r] == text[ls + r]);
            assert(seg[r + 1] == text[ls + r + 1]);
            assert(seg[r + 2] == text[ls + r + 2]);
            assert(token_at(text, ls + r));
        }
    }
    if let Some(rn) = last_trigger(seg) {
        let r = rn as int;
        let k = ls + r;
        lemma_token_at(seg, r);
        assert(seg[r] == text[k]);
        assert(seg[r + 1] == text[k + 1]);
        assert(seg[r + 2] == text[k + 2]);
        assert(last_token_on_line(text, kc, k)) by {
            assert forall|m: int| k <= m < kc implies #[trigger] text[m] != '\n' by {
                assert(pre[m] == text[m]);
            }
            assert forall|j: int| k < j && j + 3 <= kc implies !#[trigger] token_at(text, j) by {
                lemma_token_at(seg, j - ls);
                if token_at(text, j) {
                    assert(seg[j - ls] == text[j]);
                    assert(seg[j - ls + 1] == text[j + 1]);
                    assert(seg[j - ls + 2] == text[j + 2]);
                }
            }
        }
        let q = seg.skip(r + 3);
        assert(q =~= text.subrange(k + 3, kc));
        assert((forall|i: int| 0 <= i < q.len() ==> query_char(#[trigger] q[i])) == (forall|m: int|
            k + 3 <= m < kc ==> query_char(#[trigger] text[m]))) by {
            assert forall|m: int| k + 3 <= m < kc implies q[m - k - 3] == text[m] by {}
            assert forall|i: int| 0 <= i < q.len() implies q[i] == text[k + 3 + i] by {}
        }
    }
}

/// Splicing an accepted completion, stated on the text: the text before the
/// trigger and the text after the caret are kept as they are, the snippet
/// sits whole between them, and at most one line break is added on each
/// side, exactly when other text would otherwise abut the snippet on that
/// side.
#[verifier::spinoff_prover]
#[verifier::rlimit(50)]
pub proof fn lemma_completion_splice_law(text: Seq<char>, ks: int, kc: int, insert: Seq<char>)
    requires
        0 <= ks <= kc <= text.len(),
    ensures
        ({
            let r = spliced(text, ks, kc, insert);
            let lb: int = if ks > 0 && text[ks - 1] != '\n' { 1 } else { 0 };
            let tb: int = if kc < text.len() && text[kc] != '\n' { 1 } else { 0 };
            &&& r.len() == ks + lb + insert.len() + tb + (text.len() - kc)
            &&& r.take(ks) == text.take(ks)
            &&& r.skip(r.len() - (text.len() - kc)) == text.skip(kc)
            &&& r.subrange(ks + lb, ks + lb + insert.len()) == insert
            &&& lb == 1 ==> r[ks] == '\n'
            &&& tb == 1 ==> r[ks + lb + insert.len()] == '\n'
        }),
{
    let prefix = text.take(ks);
    let suffix = text.skip(kc);
    let r = spliced(text, ks, kc, insert);
    if ks > 0 {
        assert(prefix.last() == text[ks - 1]);
    }
    if kc < text.len() {
        assert(suffix[0] == text[kc]);
    }
    let lb = lead_break(prefix);
    let tb = trail_break(suffix);
    assert(r =~= prefix + lb + insert + tb + suffix);
    assert(r.take(ks) =~= prefix);
    assert(r.skip(r.len() - suffix.len()) =~= suffix);
    assert(r.subrange(ks + lb.len(), ks + lb.len() + insert.len()) =~= insert);
    if lb.len() == 1 {
        assert(r[ks] == lb[0]);
    }
    if tb.len() == 1 {
        assert(r[ks + lb.len() + insert.len()] == tb[0]);
    }
}

/// The popup's keys, stated on its state: a closed or empty popup ignores
/// every key; in an open one, ↓ highlights the first item when none is
/// highlighted and otherwise the next one, wrapping from the last to the
/// first; ↑ highlights the last item when none is highlighted and otherwise
/// the previous one, wrapping from the first to the last; Enter and Tab
/// accept the highlighted item and are ignored when none is; Esc dismisses;
/// any other key is ignored.
#[verifier::spinoff_prover]
#[verifier::rlimit(50)]
pub proof fn lemma_popup_key_law(open: bool, len: nat, selected: Option<usize>, key: PopupKey)
    requires
        selected matches Some(i) ==> i < len,
        len <= usize::MAX,
    ensures
        spec_popup_key(open, len, selected, key) == if !open || len == 0 {
            PopupAction::Ignore
        } else {
            match key {
                PopupKey::ArrowDown => PopupAction::Select(
                    match selected {
                        None => 0,
                        Some(i) => if i + 1 == len { 0 } else { (i + 1) as usize },
                    },
                ),
                PopupKey::ArrowUp => PopupAction::Select(
                    match selected {
                        None => (len - 1) as usize,
                        Some(i) => if i == 0 { (len - 1) as usize } else { (i - 1) as usize },
                    },
                ),
                PopupKey::Enter | PopupKey::Tab => match selected {
                    Some(i) => PopupAction::Accept(i),
                    None => PopupAction::Ignore,
                },
                PopupKey::Escape => PopupAction::Dismiss,
                PopupKey::Other => PopupAction::Ignore,
            }
        },
{
    if let Some(i) = selected {
        if open && len > 0 {
            lemma_ring_step(i as int, len as int);
            vstd::arithmetic::div_mod::lemma_small_mod(i as nat, len);
        }
    }
}

} // verus!
