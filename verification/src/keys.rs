//! Stable, content-derived render keys for a block list.
use vstd::prelude::*;
use crate::blocks::{Block, BlockModel, blocks_view};
use crate::text::string_push;

verus! {

/// The decimal digit `d`.
pub open spec fn digit_char(d: nat) -> char {
    if d == 0 {
        '0'
    } else if d == 1 {
        '1'
    } else if d == 2 {
        '2'
    } else if d == 3 {
        '3'
    } else if d == 4 {
        '4'
    } else if d == 5 {
        '5'
    } else if d == 6 {
        '6'
    } else if d == 7 {
        '7'
    } else if d == 8 {
        '8'
    } else {
        '9'
    }
}

/// Decimal representation of `n` (as `format!("{n}")` writes it).
pub open spec fn decimal(n: nat) -> Seq<char>
    decreases n,
{
    if n < 10 {
        seq![digit_char(n)]
    } else {
        decimal(n / 10).push(digit_char(n % 10))
    }
}

/// Number of blocks of `bs` whose text is `t`.
pub open spec fn count_text(bs: Seq<BlockModel>, t: Seq<char>) -> nat
    decreases bs.len(),
{
    if bs.len() == 0 {
        0
    } else {
        count_text(bs.drop_last(), t) + if bs.last().text == t {
            1nat
        } else {
            0nat
        }
    }
}

/// Key of block `i`: its text, `#`, and how many earlier blocks have the
/// same text.
pub open spec fn block_key(bs: Seq<BlockModel>, i: int) -> Seq<char> {
    bs[i].text + seq!['#'] + decimal(count_text(bs.take(i), bs[i].text))
}

fn digit(d: usize) -> (c: char)
    requires
        d < 10,
    ensures
        c == digit_char(d as nat),
{
    if d == 0 {
        '0'
    } else if d == 1 {
        '1'
    } else if d == 2 {
        '2'
    } else if d == 3 {
        '3'
    } else if d == 4 {
        '4'
    } else if d == 5 {
        '5'
    } else if d == 6 {
        '6'
    } else if d == 7 {
        '7'
    } else if d == 8 {
        '8'
    } else {
        '9'
    }
}

/// Appends the decimal representation of `n`.
pub fn push_decimal(out: &mut String, n: usize)
    ensures
        final(out)@ == old(out)@ + decimal(n as nat),
    decreases n,
{
    if n >= 10 {
        push_decimal(out, n / 10);
        string_push(out, digit(n % 10));
        assert(final(out)@ =~= old(out)@ + decimal(n as nat));
    } else {
        string_push(out, digit(n));
        assert(final(out)@ =~= old(out)@ + decimal(n as nat));
    }
}

/// Stable, content-derived render keys for a block list, so blocks are
/// diffed by identity rather than position. Identical-content blocks are
/// disambiguated by their occurrence order; every key contains a `#`.
pub fn block_keys(blocks: &[Block]) -> (keys: Vec<String>)
    ensures
        keys@.len() == blocks@.len(),
        forall|i: int|
            0 <= i < blocks@.len() ==> (#[trigger] keys@[i])@ == block_key(blocks_view(blocks@), i),
{
    let ghost bs = blocks_view(blocks@);
    let mut keys: Vec<String> = Vec::new();
    let mut i: usize = 0;
    while i < blocks.len()
        invariant
            i <= blocks.len(),
            bs == blocks_view(blocks@),
            keys@.len() == i,
            forall|j: int| 0 <= j < i ==> (#[trigger] keys@[j])@ == block_key(bs, j),
        decreases blocks.len() - i,
    {
        let mut n: usize = 0;
        let mut j: usize = 0;
        while j < i
            invariant
                j <= i < blocks.len(),
                bs == blocks_view(blocks@),
                n <= j,
                n == count_text(bs.take(j as int), bs[i as int].text),
            decreases i - j,
        {
            assert(bs.take(j + 1).drop_last() =~= bs.take(j as int));
            assert(bs.take(j + 1).last() == bs[j as int]);
            if blocks[j].text == blocks[i].text {
                n = n + 1;
            }
            j = j + 1;
        }
        let mut key = blocks[i].text.clone();
        string_push(&mut key, '#');
        push_decimal(&mut key, n);
        assert(key@ =~= block_key(bs, i as int));
        keys.push(key);
        i = i + 1;
    }
    keys
}

proof fn lemma_decimal_digits(n: nat)
    ensures
        decimal(n).len() > 0,
        n < 10 <==> decimal(n).len() == 1,
        forall|k: int| 0 <= k < decimal(n).len() ==> #[trigger] decimal(n)[k] != '#',
    decreases n,
{
    if n >= 10 {
        lemma_decimal_digits(n / 10);
        let d = decimal(n);
        assert forall|k: int| 0 <= k < d.len() implies #[trigger] d[k] != '#' by {
            if k < d.len() - 1 {
                assert(d[k] == decimal(n / 10)[k]);
            }
        }
    }
}

proof fn lemma_decimal_injective(n: nat, m: nat)
    requires
        decimal(n) == decimal(m),
    ensures
        n == m,
    decreases n,
{
    lemma_decimal_digits(n);
    lemma_decimal_digits(m);
    if n >= 10 && m >= 10 {
        assert(decimal(n).drop_last() =~= decimal(n / 10));
        assert(decimal(m).drop_last() =~= decimal(m / 10));
        lemma_decimal_injective(n / 10, m / 10);
        assert(decimal(n).last() == digit_char(n % 10));
        assert(decimal(m).last() == digit_char(m % 10));
    } else if n < 10 && m < 10 {
        assert(decimal(n)[0] == digit_char(n));
        assert(decimal(m)[0] == digit_char(m));
    }
}

proof fn lemma_count_text_step(bs: Seq<BlockModel>, i: int, j: int, t: Seq<char>)
    requires
        0 <= i < j <= bs.len(),
        bs[i].text == t,
    ensures
        count_text(bs.take(i), t) < count_text(bs.take(j), t),
    decreases j - i,
{
    assert(bs.take(j).drop_last() =~= bs.take(j - 1));
    if j - 1 > i {
        lemma_count_text_step(bs, i, j - 1, t);
    } else {
        assert(bs.take(j).last() == bs[i]);
    }
}

/// The keys of distinct blocks are distinct, whatever their texts.
pub proof fn lemma_block_keys_distinct(bs: Seq<BlockModel>, i: int, j: int)
    requires
        0 <= i < bs.len(),
        0 <= j < bs.len(),
        i != j,
    ensures
        block_key(bs, i) != block_key(bs, j),
{
    let ti = bs[i].text;
    let tj = bs[j].text;
    let di = count_text(bs.take(i), ti);
    let dj = count_text(bs.take(j), tj);
    let ki = block_key(bs, i);
    let kj = block_key(bs, j);
    lemma_decimal_digits(di);
    lemma_decimal_digits(dj);
    if ki == kj {
        assert(ki[ti.len() as int] == '#');
        assert(kj[tj.len() as int] == '#');
        let ai = ti + seq!['#'];
        let aj = tj + seq!['#'];
        assert(ki == ai + decimal(di));
        assert(kj == aj + decimal(dj));
        assert(ai.len() == ti.len() + 1);
        assert(aj.len() == tj.len() + 1);
        assert(ki.len() == ai.len() + decimal(di).len());
        assert(kj.len() == aj.len() + decimal(dj).len());
        assert(ki.len() == kj.len());
        if ti.len() < tj.len() {
            assert(ki[tj.len() as int] == decimal(di)[tj.len() - ai.len()]);
        } else if tj.len() < ti.len() {
            assert(kj[ti.len() as int] == decimal(dj)[ti.len() - aj.len()]);
        } else {
            assert(ti =~= ki.take(ti.len() as int));
            assert(tj =~= kj.take(tj.len() as int));
            assert(decimal(di) =~= ki.skip(ti.len() + 1int));
            assert(decimal(dj) =~= kj.skip(tj.len() + 1int));
            lemma_decimal_injective(di, dj);
            if i < j {
                lemma_count_text_step(bs, i, j, ti);
            } else {
                lemma_count_text_step(bs, j, i, tj);
            }
        }
    }
}

/// Every key contains a `#` (right after the block's text), so a key
/// without one never collides with a block key.
pub proof fn lemma_block_key_has_hash(bs: Seq<BlockModel>, i: int)
    requires
        0 <= i < bs.len(),
    ensures
        block_key(bs, i)[bs[i].text.len() as int] == '#',
{
}

} // verus!
