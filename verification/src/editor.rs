//! The editor's decisions, as functions from its state (the block snapshot
//! and the active block) and an event to its next state: adding, deleting,
//! pasting and moving blocks, committing typed text, and splitting a block.
use vstd::prelude::*;
use crate::blocks::{
    Block, BlockModel, atomic_pred, blocks_view, break_before, break_block_before, copy_block,
    copy_blocks, delete_and_normalize, insert_after_and_normalize, insert_pos, is_line_predicate,
    join_blocks, normalize_body, plain, rejoin_normalized, spec_insert_after, spec_join,
    spec_rejoin, spec_split, split_blocks, spec_ensure_break, drop_blank,
};
use crate::block_laws::lemma_split_join_roundtrip;

verus! {

/// Where a new block goes: right below the active block, or at the end.
pub open spec fn add_position(active: Option<usize>, len: int) -> int {
    match active {
        Some(i) => insert_pos(i as int, len),
        None => len,
    }
}

/// The snapshot after adding an empty block at `at`; the block before it
/// first gets a paragraph break.
pub open spec fn spec_add_block(bs: Seq<BlockModel>, at: int) -> Seq<BlockModel> {
    break_before(bs, at).insert(at, plain(Seq::empty()))
}

/// Insert a fresh, empty block right below the active block (or at the end
/// when none is active) and return the new snapshot and the new block's
/// index, which becomes the active one.
pub fn add_block(snap: &Vec<Block>, active: Option<usize>) -> (r: (Vec<Block>, usize))
    ensures
        r.1 == add_position(active, snap@.len() as int),
        blocks_view(r.0@) == spec_add_block(blocks_view(snap@), r.1 as int),
{
    let mut v = copy_blocks(snap.as_slice());
    let at = match active {
        Some(i) => if i < v.len() && i + 1 < v.len() {
            i + 1
        } else {
            v.len()
        },
        None => v.len(),
    };
    break_block_before(&mut v, at);
    let ghost before = v@;
    let b = Block { text: String::new(), atomic: false, frontmatter: false };
    v.insert(at, b);
    assert(blocks_view(v@) =~= blocks_view(before).insert(at as int, b@));
    (v, at)
}

/// The active block after block `i` is deleted: cleared when it was `i`,
/// shifted left when it came after `i`.
pub open spec fn active_after_delete(active: Option<usize>, i: int) -> Option<usize> {
    match active {
        Some(a) => if a == i {
            None
        } else if a > i {
            Some((a - 1) as usize)
        } else {
            Some(a)
        },
        None => None,
    }
}

/// Delete block `i` from the snapshot. `None` (nothing to do) when `i` is
/// out of range; otherwise the new snapshot and the new active block.
pub fn delete_from_snapshot(snap: &Vec<Block>, i: usize, active: Option<usize>) -> (r: Option<
    (Vec<Block>, Option<usize>),
>)
    ensures
        i >= snap@.len() ==> r is None,
        i < snap@.len() ==> (r matches Some((v, a)) && blocks_view(v@) == blocks_view(
            snap@,
        ).remove(i as int) && a == active_after_delete(active, i as int)),
{
    if i >= snap.len() {
        return None;
    }
    let mut v = copy_blocks(snap.as_slice());
    let ghost before = v@;
    v.remove(i);
    assert(blocks_view(v@) =~= blocks_view(before).remove(i as int));
    let a = match active {
        Some(a) => if a == i {
            None
        } else if a > i {
            Some(a - 1)
        } else {
            Some(a)
        },
        None => None,
    };
    Some((v, a))
}

/// `bs` with the last block ending in a paragraph break.
pub open spec fn break_last(bs: Seq<BlockModel>) -> Seq<BlockModel> {
    break_before(bs, bs.len() as int)
}

/// The snapshot after pasting the blocks `ins` right below block `i`: the
/// block before them and the last pasted block each end in a paragraph break.
pub open spec fn spec_paste(bs: Seq<BlockModel>, i: int, ins: Seq<BlockModel>) -> Seq<BlockModel> {
    let at = insert_pos(i, bs.len() as int);
    let b = break_before(bs, at);
    b.take(at) + break_last(ins) + b.skip(at)
}

/// The active block after `n` blocks are inserted at `at`.
pub open spec fn active_after_insert(active: Option<usize>, at: int, n: int) -> Option<usize> {
    match active {
        Some(a) => if at <= a {
            Some((a + n) as usize)
        } else {
            Some(a)
        },
        None => None,
    }
}

/// Paste `text` as new block(s) right below block `i` of the snapshot while
/// a block is being edited: the text is split into blocks, kept apart from
/// its neighbours by paragraph breaks, and the active block shifts right
/// when the paste lands at or before it.
pub fn paste_into_snapshot(
    snap: &Vec<Block>,
    i: usize,
    text: &str,
    active: Option<usize>,
    is_atomic: impl Fn(&str) -> bool,
) -> (r: (Vec<Block>, Option<usize>))
    requires
        active is Some && insert_pos(i as int, snap@.len() as int) <= active->0 ==> active->0
            + spec_split(text@, atomic_pred(is_atomic)).len() <= usize::MAX,
        is_line_predicate(is_atomic),
    ensures
        ({
            let ins = spec_split(text@, atomic_pred(is_atomic));
            &&& blocks_view(r.0@) == spec_paste(blocks_view(snap@), i as int, ins)
            &&& r.1 == active_after_insert(
                active,
                insert_pos(i as int, snap@.len() as int),
                ins.len() as int,
            )
        }),
{
    let ghost ins = spec_split(text@, atomic_pred(is_atomic));
    let mut v = copy_blocks(snap.as_slice());
    let at = if i < v.len() && i + 1 < v.len() {
        i + 1
    } else {
        v.len()
    };
    break_block_before(&mut v, at);
    let mut inserted = split_blocks(text, is_atomic);
    let n = inserted.len();
    break_block_before(&mut inserted, n);
    let ghost orig = blocks_view(v@);
    let ghost iv = blocks_view(inserted@);
    let mut k: usize = 0;
    assert(blocks_view(v@) =~= orig.take(at as int) + iv.take(0) + orig.skip(at as int));
    while k < n
        invariant
            k <= n == inserted@.len(),
            at <= orig.len(),
            iv == blocks_view(inserted@),
            v@.len() == orig.len() + k,
            blocks_view(v@) == orig.take(at as int) + iv.take(k as int) + orig.skip(at as int),
        decreases n - k,
    {
        let b = copy_block(&inserted[k]);
        let ghost before = v@;
        // The vector's length fits in a usize, so `at + k` does too.
        assert(v@.len() == v.len());
        v.insert(at + k, b);
        assert(iv.take(k + 1) =~= iv.take(k as int).push(b@));
        assert(blocks_view(v@) =~= blocks_view(before).insert(at + k, b@));
        assert(blocks_view(v@) =~= orig.take(at as int) + iv.take(k + 1) + orig.skip(at as int));
        k = k + 1;
    }
    assert(iv.take(n as int) =~= iv);
    let a = match active {
        Some(a) => if at <= a {
            Some(a + n)
        } else {
            Some(a)
        },
        None => None,
    };
    (v, a)
}

/// The frontmatter block, when block 0 is one, is pinned: the first slot a
/// block may be dragged from or dropped on.
pub open spec fn first_movable(bs: Seq<BlockModel>) -> int {
    if bs.len() > 0 && bs[0].frontmatter {
        1
    } else {
        0
    }
}

/// Where a block dragged from slot `from` lands when dropped on slot `to`,
/// among the `len` blocks left after it is taken out.
pub open spec fn drop_position(from: int, to: int, len: int) -> int {
    let t = if from < to {
        to - 1
    } else {
        to
    };
    if t < len {
        t
    } else {
        len
    }
}

/// The block list after dragging block `from` to slot `to`, or `None` when
/// the drop is refused (it would move the pinned frontmatter, land above
/// it, or names no block).
pub open spec fn spec_move_block(bs: Seq<BlockModel>, from: int, to: int) -> Option<Seq<BlockModel>> {
    if from < first_movable(bs) || to < first_movable(bs) || from >= bs.len() {
        None
    } else {
        let rest = bs.remove(from);
        Some(rest.insert(drop_position(from, to, rest.len() as int), bs[from]))
    }
}

/// Drag-and-drop reorder: move block `from` to slot `to` and return the
/// normalized body, or `None` when the drop is refused.
pub fn move_block_and_normalize(blocks: &[Block], from: usize, to: usize) -> (r: Option<String>)
    ensures
        match spec_move_block(blocks_view(blocks@), from as int, to as int) {
            None => r is None,
            Some(m) => r matches Some(s) && s@ == spec_rejoin(m),
        },
{
    let base: usize = if blocks.len() > 0 && blocks[0].frontmatter {
        1
    } else {
        0
    };
    if from < base || to < base {
        return None;
    }
    if from >= blocks.len() {
        return None;
    }
    let mut v = copy_blocks(blocks);
    let ghost before = v@;
    let item = v.remove(from);
    assert(blocks_view(v@) =~= blocks_view(before).remove(from as int));
    let t = if from < to {
        to - 1
    } else {
        to
    };
    let t = if t < v.len() {
        t
    } else {
        v.len()
    };
    let ghost mid = v@;
    v.insert(t, item);
    assert(blocks_view(v@) =~= blocks_view(mid).insert(t as int, item@));
    Some(rejoin_normalized(v.as_slice()))
}

/// Moving a block keeps every block: the result holds the same blocks, as
/// a multiset.
pub proof fn lemma_move_keeps_blocks(bs: Seq<BlockModel>, from: int, to: int)
    requires
        spec_move_block(bs, from, to) is Some,
    ensures
        spec_move_block(bs, from, to)->0.to_multiset() == bs.to_multiset(),
{
    broadcast use vstd::seq_lib::group_to_multiset_ensures;

    let rest = bs.remove(from);
    let p = drop_position(from, to, rest.len() as int);
    let m = rest.insert(p, bs[from]);
    assert(m.remove(p) =~= rest);
    assert(m[p] == bs[from]);
    assert(m.contains(bs[from]));
    assert(bs.contains(bs[from]));
    assert(m.to_multiset() =~= rest.to_multiset().insert(bs[from]));
    assert(bs.to_multiset() =~= rest.to_multiset().insert(bs[from]));
}

/// A pinned frontmatter block stays first whatever is dragged where.
pub proof fn lemma_move_keeps_frontmatter_first(bs: Seq<BlockModel>, from: int, to: int)
    requires
        spec_move_block(bs, from, to) is Some,
        bs.len() > 0,
        bs[0].frontmatter,
    ensures
        spec_move_block(bs, from, to)->0[0] == bs[0],
{
    let rest = bs.remove(from);
    let p = drop_position(from, to, rest.len() as int);
    assert(rest[0] == bs[0]);
    assert(p >= 1);
}

/// Drag-and-drop, stated on the blocks: the drop is refused exactly when the
/// dragged slot names no block or the drag would move the pinned
/// frontmatter block or drop above it. Otherwise the blocks keep their
/// order but for the dragged one, which lands just before the block that
/// was at the drop slot `to` (after the last block when `to` is past the
/// end): at index `to - 1` when dragged down (`from < to`), at index `to`
/// when dragged up.
#[verifier::spinoff_prover]
#[verifier::rlimit(50)]
pub proof fn lemma_move_block_law(bs: Seq<BlockModel>, from: int, to: int)
    ensures
        ({
            let pinned: int = if bs.len() > 0 && bs[0].frontmatter { 1 } else { 0 };
            spec_move_block(bs, from, to) is None <==> (from < pinned || to < pinned || from
                >= bs.len())
        }),
        spec_move_block(bs, from, to) matches Some(m) ==> {
            let d = if to > bs.len() { bs.len() as int } else { to };
            &&& m.len() == bs.len()
            &&& from < d ==> {
                &&& m[d - 1] == bs[from]
                &&& forall|k: int| 0 <= k < from ==> #[trigger] m[k] == bs[k]
                &&& forall|k: int| from <= k < d - 1 ==> #[trigger] m[k] == bs[k + 1]
                &&& forall|k: int| d <= k < bs.len() ==> #[trigger] m[k] == bs[k]
            }
            &&& d <= from ==> {
                &&& m[d] == bs[from]
                &&& forall|k: int| 0 <= k < d ==> #[trigger] m[k] == bs[k]
                &&& forall|k: int| d < k <= from ==> #[trigger] m[k] == bs[k - 1]
                &&& forall|k: int| from < k < bs.len() ==> #[trigger] m[k] == bs[k]
            }
        },
{
    if let Some(m) = spec_move_block(bs, from, to) {
        let rest = bs.remove(from);
        let pos = drop_position(from, to, rest.len() as int);
        let d = if to > bs.len() { bs.len() as int } else { to };
        assert(m == rest.insert(pos, bs[from]));
        if from < d {
            assert(pos == d - 1);
        } else {
            assert(pos == d);
        }
    }
}

/// Block `i` of `bs` with its text replaced by `text` (flags kept); `bs`
/// itself when `i` is out of range.
pub open spec fn spec_set_text(bs: Seq<BlockModel>, i: int, text: Seq<char>) -> Seq<BlockModel> {
    if 0 <= i < bs.len() {
        bs.update(i, BlockModel { text, atomic: bs[i].atomic, frontmatter: bs[i].frontmatter })
    } else {
        bs
    }
}

/// Write `text` into block `i` of the snapshot (its flags are kept). Out of
/// range, the snapshot is unchanged.
pub fn set_block_text(snap: &mut Vec<Block>, i: usize, text: String)
    ensures
        final(snap)@.len() == old(snap)@.len(),
        blocks_view(final(snap)@) == spec_set_text(blocks_view(old(snap)@), i as int, text@),
{
    if i < snap.len() {
        let atomic = snap[i].atomic;
        let frontmatter = snap[i].frontmatter;
        let ghost before = snap@;
        snap.set(i, Block { text, atomic, frontmatter });
        assert(blocks_view(snap@) =~= blocks_view(before).update(
            i as int,
            BlockModel { text: text@, atomic, frontmatter },
        ));
    }
}

/// Block `i` of `bs` cut in two: it keeps `head` (and its flags), and a
/// plain block holding `tail` follows it; `bs` itself when `i` is out of
/// range.
pub open spec fn spec_split_at(bs: Seq<BlockModel>, i: int, head: Seq<char>, tail: Seq<char>) -> Seq<
    BlockModel,
> {
    if 0 <= i < bs.len() {
        spec_set_text(bs, i, head).insert(i + 1, plain(tail))
    } else {
        bs
    }
}

/// Split block `i` of the snapshot in two: it keeps `head` (and its flags),
/// and a plain block holding `tail` follows it. Out of range, the snapshot
/// is unchanged.
pub fn split_block(snap: &mut Vec<Block>, i: usize, head: String, tail: String)
    ensures
        blocks_view(final(snap)@) == spec_split_at(blocks_view(old(snap)@), i as int, head@, tail@),
{
    if i < snap.len() {
        set_block_text(snap, i, head);
        let ghost mid = snap@;
        let b = Block { text: tail, atomic: false, frontmatter: false };
        snap.insert(i + 1, b);
        assert(blocks_view(snap@) =~= blocks_view(mid).insert(i + 1, b@));
    }
}

// ---------------------------------------------------------------------------
// The editing session
// ---------------------------------------------------------------------------

/// The editor's state: the body (the single source of truth), the block
/// being edited, the snapshot of blocks taken when editing began (rendered
/// and edited while a block is active, so indices and the caret stay put),
/// and whether focus is moving programmatically to another block (so the
/// old textarea's blur must not end editing).
pub struct EditorState {
    pub body: String,
    pub active: Option<usize>,
    pub frozen: Vec<Block>,
    pub moving: bool,
}

/// The model of an [`EditorState`].
pub struct EditorModel {
    pub body: Seq<char>,
    pub active: Option<usize>,
    pub frozen: Seq<BlockModel>,
    pub moving: bool,
}

impl View for EditorState {
    type V = EditorModel;

    open spec fn view(&self) -> EditorModel {
        EditorModel {
            body: self.body@,
            active: self.active,
            frozen: blocks_view(self.frozen@),
            moving: self.moving,
        }
    }
}

/// What happened in the editor.
pub enum EditorEvent {
    /// A rendered block was clicked: start editing it.
    Activate(usize),
    /// The "new block" button was pressed.
    AddBlock,
    /// A block's chrome asked to delete block `i`.
    Delete(usize),
    /// A block's chrome asked to insert text right after block `i`.
    InsertAfter(usize, String),
    /// A block was dragged from one slot and dropped on another.
    Drop(usize, usize),
    /// The active block `i`'s textarea now holds this text.
    Commit(usize, String),
    /// The active textarea lost focus.
    Blur,
    /// Escape was pressed in the active textarea.
    Escape,
    /// A double Enter split block `i` into a head it keeps and a tail that
    /// becomes the next block, which is edited next.
    Split(usize, String, String),
    /// An arrow key moved the caret out of the active block into block `t`.
    MoveTo(usize),
}

/// While a block is being edited, the body is the join of the snapshot.
pub open spec fn synced(s: EditorModel) -> bool {
    s.active is Some ==> s.body == spec_join(s.frozen)
}

/// The events the editor's view can raise in state `s`: blocks are dragged
/// only while none is being edited, and focus moves by arrow only out of an
/// active block.
pub open spec fn event_fits(s: EditorModel, e: EditorEvent) -> bool {
    match e {
        EditorEvent::Drop(_, _) => s.active is None,
        EditorEvent::MoveTo(_) => s.active is Some,
        _ => true,
    }
}

/// What the editor needs of a step to carry it out without overflow.
pub open spec fn step_allowed(s: EditorModel, e: EditorEvent, atomic: spec_fn(Seq<char>) -> bool) -> bool {
    match e {
        EditorEvent::InsertAfter(i, text) => {
            &&& s.active is Some && insert_pos(i as int, s.frozen.len() as int) <= s.active->0
                ==> s.active->0 + spec_split(text@, atomic).len() <= usize::MAX
        },
        EditorEvent::Split(i, _, _) => i < usize::MAX,
        _ => true,
    }
}

/// The body normalized: re-split and rejoined.
pub open spec fn normalized(body: Seq<char>, atomic: spec_fn(Seq<char>) -> bool) -> Seq<char> {
    spec_rejoin(spec_split(body, atomic))
}

/// The editor's next state after event `e` in state `s`.
pub open spec fn spec_step(s: EditorModel, e: EditorEvent, atomic: spec_fn(Seq<char>) -> bool) -> EditorModel {
    match e {
        EditorEvent::Activate(i) => EditorModel {
            body: s.body,
            active: Some(i),
            frozen: spec_split(s.body, atomic),
            moving: s.moving,
        },
        EditorEvent::AddBlock => {
            let snap = if s.active is Some {
                s.frozen
            } else {
                spec_split(s.body, atomic)
            };
            let at = add_position(s.active, snap.len() as int);
            let n = spec_add_block(snap, at);
            EditorModel { body: spec_join(n), active: Some(at as usize), frozen: n, moving: s.moving }
        },
        EditorEvent::Delete(i) => if s.active is Some {
            if i < s.frozen.len() {
                let n = s.frozen.remove(i as int);
                EditorModel {
                    body: spec_join(n),
                    active: active_after_delete(s.active, i as int),
                    frozen: n,
                    moving: s.moving,
                }
            } else {
                s
            }
        } else {
            let bs = spec_split(s.body, atomic);
            if i < bs.len() {
                EditorModel {
                    body: spec_rejoin(bs.remove(i as int)),
                    active: s.active,
                    frozen: s.frozen,
                    moving: s.moving,
                }
            } else {
                s
            }
        },
        EditorEvent::InsertAfter(i, text) => {
            let ins = spec_split(text@, atomic);
            if s.active is Some {
                let n = spec_paste(s.frozen, i as int, ins);
                EditorModel {
                    body: spec_join(n),
                    active: active_after_insert(
                        s.active,
                        insert_pos(i as int, s.frozen.len() as int),
                        ins.len() as int,
                    ),
                    frozen: n,
                    moving: s.moving,
                }
            } else {
                EditorModel {
                    body: spec_rejoin(spec_insert_after(spec_split(s.body, atomic), i as int, ins)),
                    active: s.active,
                    frozen: s.frozen,
                    moving: s.moving,
                }
            }
        },
        EditorEvent::Drop(from, to) => match spec_move_block(
            spec_split(s.body, atomic),
            from as int,
            to as int,
        ) {
            Some(m) => EditorModel {
                body: spec_rejoin(m),
                active: s.active,
                frozen: s.frozen,
                moving: s.moving,
            },
            None => s,
        },
        EditorEvent::Commit(i, text) => {
            let n = spec_set_text(s.frozen, i as int, text@);
            EditorModel { body: spec_join(n), active: s.active, frozen: n, moving: s.moving }
        },
        EditorEvent::Blur => if s.moving {
            EditorModel { body: s.body, active: s.active, frozen: s.frozen, moving: false }
        } else {
            EditorModel {
                body: normalized(s.body, atomic),
                active: None,
                frozen: s.frozen,
                moving: s.moving,
            }
        },
        EditorEvent::Escape => EditorModel {
            body: normalized(s.body, atomic),
            active: None,
            frozen: s.frozen,
            moving: s.moving,
        },
        EditorEvent::Split(i, head, tail) => {
            let n = spec_split_at(s.frozen, i as int, head@, tail@);
            EditorModel { body: spec_join(n), active: Some((i + 1) as usize), frozen: n, moving: true }
        },
        EditorEvent::MoveTo(t) => EditorModel {
            body: s.body,
            active: Some(t),
            frozen: s.frozen,
            moving: true,
        },
    }
}

/// While a block is being edited, every step the view can raise keeps the
/// body equal to the join of the snapshot: activating a block snapshots the
/// body losslessly, and each edit of the snapshot writes its join back.
pub proof fn lemma_step_keeps_synced(s: EditorModel, e: EditorEvent, atomic: spec_fn(Seq<char>) -> bool)
    requires
        synced(s),
        event_fits(s, e),
    ensures
        synced(spec_step(s, e, atomic)),
{
    if e is Activate {
        lemma_split_join_roundtrip(s.body, atomic);
    }
}

/// Leaving a block, stated through the other operations: Escape ends
/// editing and leaves the body as `normalize_body` makes it, keeping the
/// snapshot and the move flag; a blur outside a programmatic move does
/// exactly what Escape does; a blur during a move only clears the move flag.
#[verifier::spinoff_prover]
#[verifier::rlimit(50)]
pub proof fn lemma_step_leave_law(s: EditorModel, atomic: spec_fn(Seq<char>) -> bool)
    ensures
        spec_step(s, EditorEvent::Escape, atomic).active is None,
        spec_step(s, EditorEvent::Escape, atomic).body == spec_rejoin(spec_split(s.body, atomic)),
        spec_step(s, EditorEvent::Escape, atomic).frozen == s.frozen,
        spec_step(s, EditorEvent::Escape, atomic).moving == s.moving,
        !s.moving ==> spec_step(s, EditorEvent::Blur, atomic) == spec_step(
            s,
            EditorEvent::Escape,
            atomic,
        ),
        s.moving ==> spec_step(s, EditorEvent::Blur, atomic) == (EditorModel {
            body: s.body,
            active: s.active,
            frozen: s.frozen,
            moving: false,
        }),
{
}

/// Starting to edit and moving between blocks, stated on the state:
/// activating block `i` snapshots the body losslessly (the snapshot joins
/// back to the unchanged body) and edits block `i`; an arrow move to block
/// `t` edits block `t` and marks the focus move, changing nothing else.
#[verifier::spinoff_prover]
#[verifier::rlimit(50)]
pub proof fn lemma_step_focus_law(s: EditorModel, i: usize, t: usize, atomic: spec_fn(Seq<char>) -> bool)
    ensures
        spec_step(s, EditorEvent::Activate(i), atomic).body == s.body,
        spec_join(spec_step(s, EditorEvent::Activate(i), atomic).frozen) == s.body,
        spec_step(s, EditorEvent::Activate(i), atomic).frozen == spec_split(s.body, atomic),
        spec_step(s, EditorEvent::Activate(i), atomic).active == Some(i),
        spec_step(s, EditorEvent::Activate(i), atomic).moving == s.moving,
        spec_step(s, EditorEvent::MoveTo(t), atomic) == (EditorModel {
            body: s.body,
            active: Some(t),
            frozen: s.frozen,
            moving: true,
        }),
{
    lemma_split_join_roundtrip(s.body, atomic);
}

/// Typing into the edited block, stated on the snapshot: committing `text`
/// to block `i` replaces that block's text (its flags kept) and no other,
/// and the body becomes the join of the new snapshot; out of range the
/// snapshot is unchanged. Splitting block `i` into `head` and `tail` puts a
/// plain block holding `tail` right after block `i`, which keeps `head`,
/// shifts the later blocks one place, and edits the new block.
#[verifier::spinoff_prover]
#[verifier::rlimit(50)]
pub proof fn lemma_step_edit_law(
    s: EditorModel,
    i: usize,
    text: String,
    head: String,
    tail: String,
    atomic: spec_fn(Seq<char>) -> bool,
)
    ensures
        ({
            let c = spec_step(s, EditorEvent::Commit(i, text), atomic);
            &&& c.frozen.len() == s.frozen.len()
            &&& c.body == spec_join(c.frozen)
            &&& c.active == s.active && c.moving == s.moving
            &&& forall|k: int| 0 <= k < s.frozen.len() && k != i ==> #[trigger] c.frozen[k]
                == s.frozen[k]
            &&& i < s.frozen.len() ==> c.frozen[i as int].text == text@ && c.frozen[i as int].atomic
                == s.frozen[i as int].atomic && c.frozen[i as int].frontmatter
                == s.frozen[i as int].frontmatter
        }),
        ({
            let p = spec_step(s, EditorEvent::Split(i, head, tail), atomic);
            &&& p.body == spec_join(p.frozen)
            &&& p.active == Some((i + 1) as usize)
            &&& p.moving
            &&& i < s.frozen.len() ==> {
                &&& p.frozen.len() == s.frozen.len() + 1
                &&& p.frozen[i as int].text == head@
                &&& p.frozen[i + 1] == plain(tail@)
                &&& forall|k: int| 0 <= k < i ==> #[trigger] p.frozen[k] == s.frozen[k]
                &&& forall|k: int| i + 1 < k < p.frozen.len() ==> #[trigger] p.frozen[k]
                    == s.frozen[k - 1]
            }
            &&& i >= s.frozen.len() ==> p.frozen == s.frozen
        }),
{
}

/// Deleting a block while one is edited, stated on the snapshot: block `i`
/// is removed and the body becomes the join of what is left; the edited
/// block stops being edited when it is the one removed, and keeps being
/// edited (one place up when it came after `i`) otherwise. With no block
/// edited, the body is renormalized without its block `i`. Out of range,
/// nothing changes.
#[verifier::spinoff_prover]
#[verifier::rlimit(50)]
pub proof fn lemma_step_delete_law(s: EditorModel, i: usize, atomic: spec_fn(Seq<char>) -> bool)
    ensures
        ({
            let d = spec_step(s, EditorEvent::Delete(i), atomic);
            &&& s.active is Some && i < s.frozen.len() ==> {
                &&& d.frozen == s.frozen.remove(i as int)
                &&& d.body == spec_join(d.frozen)
                &&& s.active->0 == i ==> d.active is None
                &&& s.active->0 > i ==> d.active == Some((s.active->0 - 1) as usize)
                &&& s.active->0 < i ==> d.active == s.active
            }
            &&& s.active is Some && i >= s.frozen.len() ==> d == s
            &&& s.active is None && i < spec_split(s.body, atomic).len() ==> d == (EditorModel {
                body: spec_rejoin(spec_split(s.body, atomic).remove(i as int)),
                active: None,
                frozen: s.frozen,
                moving: s.moving,
            })
            &&& s.active is None && i >= spec_split(s.body, atomic).len() ==> d == s
        }),
{
}

/// Adding a block, stated on the snapshot: one empty plain block is added,
/// right below the edited block (at the end when none is edited or the
/// edited one is last), it becomes the edited block, the blocks before it
/// keep their text but for the one just above, which gains a paragraph
/// break at most, and the body is the join of the new snapshot.
#[verifier::spinoff_prover]
#[verifier::rlimit(50)]
pub proof fn lemma_step_add_law(s: EditorModel, atomic: spec_fn(Seq<char>) -> bool)
    ensures
        ({
            let snap = if s.active is Some { s.frozen } else { spec_split(s.body, atomic) };
            let at: int = match s.active {
                Some(a) => if a + 1 < snap.len() { a + 1 } else { snap.len() as int },
                None => snap.len() as int,
            };
            let r = spec_step(s, EditorEvent::AddBlock, atomic);
            &&& r.frozen.len() == snap.len() + 1
            &&& r.frozen[at] == plain(Seq::empty())
            &&& r.active == Some(at as usize)
            &&& r.body == spec_join(r.frozen)
            &&& forall|k: int| 0 <= k < at - 1 ==> #[trigger] r.frozen[k] == snap[k]
            &&& forall|k: int| at < k < r.frozen.len() ==> #[trigger] r.frozen[k] == snap[k - 1]
            &&& at > 0 ==> r.frozen[at - 1].text.take(snap[at - 1].text.len() as int)
                == snap[at - 1].text
        }),
{
    let snap = if s.active is Some { s.frozen } else { spec_split(s.body, atomic) };
    let at = add_position(s.active, snap.len() as int);
    if at > 0 {
        let t = snap[at - 1].text;
        let b = spec_ensure_break(t);
        assert(b.take(t.len() as int) =~= t);
    }
}

/// Rearranging and pasting, stated on the blocks. Dropping a dragged block
/// renormalizes the body with the blocks as [`lemma_move_block_law`] moves
/// them (unchanged when the drop is refused) and touches nothing else.
/// Inserting text after block `i` with no block edited renormalizes the body
/// with the non-blank blocks of the text spliced in right after block `i`
/// (at the end when `i` is the last block or past it). Pasting while a block
/// is edited puts the text's blocks into the snapshot at that place, in
/// order, keeps the blocks before and after it (the one just above gaining a
/// paragraph break at most), and moves the edited block down by as many
/// blocks when it came at or after the place.
#[verifier::spinoff_prover]
#[verifier::rlimit(50)]
pub proof fn lemma_step_arrange_law(
    s: EditorModel,
    from: usize,
    to: usize,
    i: usize,
    text: String,
    atomic: spec_fn(Seq<char>) -> bool,
)
    ensures
        spec_step(s, EditorEvent::Drop(from, to), atomic) == (EditorModel {
            body: match spec_move_block(spec_split(s.body, atomic), from as int, to as int) {
                Some(m) => spec_rejoin(m),
                None => s.body,
            },
            active: s.active,
            frozen: s.frozen,
            moving: s.moving,
        }),
        ({
            let bs = spec_split(s.body, atomic);
            let ins = spec_split(text@, atomic);
            let at: int = if i + 1 < bs.len() { i + 1 } else { bs.len() as int };
            s.active is None ==> spec_step(s, EditorEvent::InsertAfter(i, text), atomic) == (
            EditorModel {
                body: spec_rejoin(bs.take(at) + drop_blank(ins) + bs.skip(at)),
                active: None,
                frozen: s.frozen,
                moving: s.moving,
            })
        }),
        ({
            let ins = spec_split(text@, atomic);
            let n = ins.len() as int;
            let len = s.frozen.len() as int;
            let at: int = if i + 1 < len { i + 1 } else { len };
            let r = spec_step(s, EditorEvent::InsertAfter(i, text), atomic);
            s.active is Some ==> {
                &&& r.frozen.len() == len + n
                &&& r.body == spec_join(r.frozen)
                &&& forall|k: int| 0 <= k < n - 1 ==> #[trigger] r.frozen[at + k] == ins[k]
                &&& n > 0 ==> r.frozen[at + n - 1].text.take(ins[n - 1].text.len() as int)
                    == ins[n - 1].text
                &&& forall|k: int| 0 <= k < at - 1 ==> #[trigger] r.frozen[k] == s.frozen[k]
                &&& forall|k: int| at <= k < len ==> #[trigger] r.frozen[k + n] == s.frozen[k]
                &&& s.active->0 >= at ==> r.active == Some((s.active->0 + n) as usize)
                &&& s.active->0 < at ==> r.active == s.active
            }
        }),
{
    let bs = spec_split(s.body, atomic);
    let ins = spec_split(text@, atomic);
    crate::block_laws::lemma_insert_after_is_splice(bs, i as int, ins);
    if s.active is Some {
        let n = ins.len() as int;
        let len = s.frozen.len() as int;
        let at = insert_pos(i as int, len);
        let b = break_before(s.frozen, at);
        let bl = break_last(ins);
        let r = spec_step(s, EditorEvent::InsertAfter(i, text), atomic);
        assert(r.frozen == b.take(at) + bl + b.skip(at));
        assert forall|k: int| 0 <= k < n - 1 implies #[trigger] r.frozen[at + k] == ins[k] by {
            assert(r.frozen[at + k] == bl[k]);
        }
        if n > 0 {
            assert(r.frozen[at + n - 1] == bl[n - 1]);
            let t = ins[n - 1].text;
            assert(spec_ensure_break(t).take(t.len() as int) =~= t);
        }
        assert forall|k: int| 0 <= k < at - 1 implies #[trigger] r.frozen[k] == s.frozen[k] by {
            assert(r.frozen[k] == b[k]);
        }
        assert forall|k: int| at <= k < len implies #[trigger] r.frozen[k + n] == s.frozen[k] by {
            assert(r.frozen[k + n] == b[k]);
        }
    }
}

impl EditorState {
    /// An editor on `body` with no block being edited.
    pub fn new(body: String) -> (r: EditorState)
        ensures
            r@ == (EditorModel { body: body@, active: None, frozen: Seq::empty(), moving: false }),
    {
        let r = EditorState { body, active: None, frozen: Vec::new(), moving: false };
        assert(r@.frozen =~= Seq::<BlockModel>::empty());
        r
    }

    /// Carry out event `event`: the editor moves to [`spec_step`]'s next
    /// state. A step that the view can raise keeps the body equal to the
    /// join of the snapshot while a block is being edited.
    pub fn step<F: Fn(&str) -> bool + Copy>(&mut self, event: EditorEvent, is_atomic: F)
        requires
            is_line_predicate(is_atomic),
            step_allowed(old(self)@, event, atomic_pred(is_atomic)),
        ensures
            final(self)@ == spec_step(old(self)@, event, atomic_pred(is_atomic)),
            synced(old(self)@) && event_fits(old(self)@, event) ==> synced(final(self)@),
    {
        let ghost atomic = atomic_pred(is_atomic);
        proof {
            if synced(self@) && event_fits(self@, event) {
                lemma_step_keeps_synced(self@, event, atomic);
            }
        }
        match event {
            EditorEvent::Activate(i) => {
                self.frozen = split_blocks(self.body.as_str(), is_atomic);
                self.active = Some(i);
            },
            EditorEvent::AddBlock => {
                let snap = if self.active.is_some() {
                    copy_blocks(self.frozen.as_slice())
                } else {
                    split_blocks(self.body.as_str(), is_atomic)
                };
                let (n, at) = add_block(&snap, self.active);
                self.active = Some(at);
                self.body = join_blocks(n.as_slice());
                self.frozen = n;
            },
            EditorEvent::Delete(i) => {
                if self.active.is_some() {
                    match delete_from_snapshot(&self.frozen, i, self.active) {
                        Some((n, a)) => {
                            self.active = a;
                            self.body = join_blocks(n.as_slice());
                            self.frozen = n;
                        },
                        None => {},
                    }
                } else {
                    let bs = split_blocks(self.body.as_str(), is_atomic);
                    if i < bs.len() {
                        self.body = delete_and_normalize(bs.as_slice(), i);
                    }
                }
            },
            EditorEvent::InsertAfter(i, text) => {
                if self.active.is_some() {
                    let (n, a) = paste_into_snapshot(
                        &self.frozen,
                        i,
                        text.as_str(),
                        self.active,
                        is_atomic,
                    );
                    self.active = a;
                    self.body = join_blocks(n.as_slice());
                    self.frozen = n;
                } else {
                    let bs = split_blocks(self.body.as_str(), is_atomic);
                    self.body = insert_after_and_normalize(
                        bs.as_slice(),
                        i,
                        text.as_str(),
                        is_atomic,
                    );
                }
            },
            EditorEvent::Drop(from, to) => {
                let bs = split_blocks(self.body.as_str(), is_atomic);
                match move_block_and_normalize(bs.as_slice(), from, to) {
                    Some(b) => {
                        self.body = b;
                    },
                    None => {},
                }
            },
            EditorEvent::Commit(i, text) => {
                set_block_text(&mut self.frozen, i, text);
                self.body = join_blocks(self.frozen.as_slice());
            },
            EditorEvent::Blur => {
                if self.moving {
                    self.moving = false;
                } else {
                    self.active = None;
                    self.body = normalize_body(self.body.as_str(), is_atomic);
                }
            },
            EditorEvent::Escape => {
                self.active = None;
                self.body = normalize_body(self.body.as_str(), is_atomic);
            },
            EditorEvent::Split(i, head, tail) => {
                split_block(&mut self.frozen, i, head, tail);
                self.body = join_blocks(self.frozen.as_slice());
                self.moving = true;
                self.active = Some(i + 1);
            },
            EditorEvent::MoveTo(t) => {
                self.moving = true;
                self.active = Some(t);
            },
        }
    }
}

} // verus!
