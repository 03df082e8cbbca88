//! Keeping the chromatic slots apart: where two of them hold colors that are
//! closer than the similarity threshold, one gives way to the next
//! candidate of its queue.
//!
//! The pairs of chromatic slots are scanned in a fixed order: by the lower
//! slot, then by the higher. The first pair found in conflict is settled,
//! and the scan starts again. Each settlement takes a candidate from a
//! queue or empties a slot, so the number of settlements is bounded by what
//! the queues and slots hold.

use vstd::prelude::*;
use crate::Rgb;
use crate::color::{distance, compare_colors};
use crate::quantize::{ColorCount, CandidateQueue};
use crate::config::Config;

verus! {

/// The slots and what is left of their queues.
pub struct Board {
    pub palette: Seq<Option<Rgb>>,
    pub queues: Seq<Seq<ColorCount>>,
}

/// The entries of each queue of an index.
pub open spec fn queues_of(index: Seq<CandidateQueue>) -> Seq<Seq<ColorCount>> {
    Seq::new(index.len(), |i: int| index[i]@)
}

/// The board of a palette and an index.
pub open spec fn board_of(palette: Seq<Option<Rgb>>, index: Seq<CandidateQueue>) -> Board {
    Board { palette, queues: queues_of(index) }
}

/// Sixteen slots and sixteen queues.
pub open spec fn board_wf(b: Board) -> bool {
    b.palette.len() == 16 && b.queues.len() == 16
}

/// The board after the slot has drawn from its queue: the slot holds the
/// color of the highest-ranking entry, which leaves the queue; with an empty
/// queue the slot is empty.
pub open spec fn draw(b: Board, slot: int) -> Board {
    if b.queues[slot].len() == 0 {
        Board { palette: b.palette.update(slot, None), queues: b.queues }
    } else {
        Board {
            palette: b.palette.update(slot, Some(b.queues[slot].last().rgb)),
            queues: b.queues.update(slot, b.queues[slot].drop_last()),
        }
    }
}

/// The distance by which two slots are told apart: all weights 1.
pub open spec fn pair_distance(a: Rgb, b: Rgb) -> int {
    distance(a, b, 1000, 1000, 1000)
}

/// Both slots hold a color, and the two are closer than `similarity`.
pub open spec fn conflict(p: Seq<Option<Rgb>>, i: int, j: int, similarity: int) -> bool {
    p[i].is_some() && p[j].is_some() && pair_distance(p[i].unwrap(), p[j].unwrap()) < similarity
}

/// The first pair in conflict at or after `(i, j)`, in the order of the
/// scan.
pub open spec fn next_conflict(p: Seq<Option<Rgb>>, similarity: int, i: int, j: int) -> Option<
    (int, int),
>
    decreases 16 - i, 16 - j,
{
    if i >= 15 {
        None
    } else if j >= 16 {
        next_conflict(p, similarity, i + 1, i + 2)
    } else if conflict(p, i, j, similarity) {
        Some((i, j))
    } else {
        next_conflict(p, similarity, i, j + 1)
    }
}

/// The first pair of chromatic slots in conflict.
pub open spec fn first_conflict(p: Seq<Option<Rgb>>, similarity: int) -> Option<(int, int)> {
    next_conflict(p, similarity, 8, 9)
}

/// The distance of a color from the reference color of a slot.
pub open spec fn own_distance(config: &Config, rgb: Rgb, slot: int) -> int {
    distance(
        rgb,
        config.template_colors@[slot],
        config.hue_compare as int,
        config.chroma_compare as int,
        config.light_compare as int,
    )
}

/// Which of two slots in conflict gives way: never the accent in slot 13;
/// otherwise the one whose color is farther from its own reference color,
/// and the higher slot where neither is.
pub open spec fn victim(p: Seq<Option<Rgb>>, config: &Config, i: int, j: int) -> int {
    if j == 13 {
        i
    } else if i == 13 {
        j
    } else if own_distance(config, p[i].unwrap(), i) > own_distance(config, p[j].unwrap(), j) {
        i
    } else {
        j
    }
}

/// The board after at most `cap` settlements.
pub open spec fn resolve(b: Board, config: &Config, cap: nat) -> Board
    decreases cap,
{
    if cap == 0 {
        b
    } else {
        match first_conflict(b.palette, config.similarity as int) {
            None => b,
            Some(pair) => resolve(
                draw(b, victim(b.palette, config, pair.0, pair.1)),
                config,
                (cap - 1) as nat,
            ),
        }
    }
}

/// What a chromatic slot still holds: the entries of its queue, and one
/// more while the slot itself holds a color.
pub open spec fn holding(b: Board, slot: int) -> nat {
    b.queues[slot].len() + if b.palette[slot].is_some() {
        1nat
    } else {
        0nat
    }
}

/// What the chromatic slots hold together. Every settlement lowers it by
/// one, so it bounds their number.
pub open spec fn load(b: Board) -> nat {
    holding(b, 8) + holding(b, 9) + holding(b, 10) + holding(b, 11) + holding(b, 12) + holding(
        b,
        13,
    ) + holding(b, 14) + holding(b, 15)
}

/// No two chromatic slots are in conflict.
pub open spec fn settled(p: Seq<Option<Rgb>>, similarity: int) -> bool {
    forall|i: int, j: int| 8 <= i < j < 16 ==> !conflict(p, i, j, similarity)
}

/// A settlement lowers the load by one and changes no slot but the victim.
pub proof fn lemma_draw(b: Board, slot: int)
    requires
        board_wf(b),
        8 <= slot < 16,
        b.palette[slot].is_some(),
    ensures
        board_wf(draw(b, slot)),
        load(draw(b, slot)) + 1 == load(b),
        forall|k: int| 0 <= k < 16 && k != slot ==> draw(b, slot).palette[k] == b.palette[k],
        forall|k: int| 0 <= k < 16 && k != slot ==> draw(b, slot).queues[k] == b.queues[k],
{
}

/// What `next_conflict` finds is a pair in conflict, and no pair before it
/// in the scan is.
pub proof fn lemma_next_conflict(p: Seq<Option<Rgb>>, similarity: int, i: int, j: int)
    requires
        8 <= i < j <= 16,
    ensures
        match next_conflict(p, similarity, i, j) {
            Some(pair) => 8 <= pair.0 < pair.1 < 16 && conflict(p, pair.0, pair.1, similarity),
            None => forall|a: int, b: int|
                i <= a < b < 16 && (a > i || b >= j) ==> !conflict(p, a, b, similarity),
        },
    decreases 16 - i, 16 - j,
{
    if i >= 15 {
    } else if j >= 16 {
        lemma_next_conflict(p, similarity, i + 1, i + 2);
    } else if conflict(p, i, j, similarity) {
    } else {
        lemma_next_conflict(p, similarity, i, j + 1);
    }
}

/// With a cap of at least the load, the settlements come to an end: no two
/// chromatic slots of the resolved board are in conflict. The accent in
/// slot 13 stays, and so does every gray slot.
pub proof fn lemma_resolve(b: Board, config: &Config, cap: nat)
    requires
        board_wf(b),
        cap >= load(b),
    ensures
        board_wf(resolve(b, config, cap)),
        settled(resolve(b, config, cap).palette, config.similarity as int),
        resolve(b, config, cap).palette[13] == b.palette[13],
        forall|k: int| 0 <= k < 8 ==> resolve(b, config, cap).palette[k] == b.palette[k],
        forall|k: int| 0 <= k < 8 ==> resolve(b, config, cap).queues[k] == b.queues[k],
    decreases cap,
{
    let similarity = config.similarity as int;
    lemma_next_conflict(b.palette, similarity, 8, 9);
    match first_conflict(b.palette, similarity) {
        None => {},
        Some(pair) => {
            let v = victim(b.palette, config, pair.0, pair.1);
            lemma_draw(b, v);
            assert(cap > 0);
            lemma_resolve(draw(b, v), config, (cap - 1) as nat);
        },
    }
}

/// The first pair of chromatic slots in conflict.
pub(crate) fn find_conflict(palette: &Vec<Option<Rgb>>, similarity: u16) -> (r: Option<(usize, usize)>)
    requires
        palette@.len() == 16,
    ensures
        match first_conflict(palette@, similarity as int) {
            Some(pair) => r == Some((pair.0 as usize, pair.1 as usize)) && 8 <= pair.0 < pair.1
                < 16,
            None => r.is_none(),
        },
{
    let mut i: usize = 8;
    while i < 15
        invariant
            8 <= i <= 15,
            palette@.len() == 16,
            first_conflict(palette@, similarity as int) == next_conflict(
                palette@,
                similarity as int,
                i as int,
                i + 1,
            ),
        decreases 15 - i,
    {
        if let Some(first) = palette[i] {
            let mut j: usize = i + 1;
            while j < 16
                invariant
                    8 <= i < j <= 16,
                    palette@.len() == 16,
                    palette@[i as int] == Some(first),
                    first_conflict(palette@, similarity as int) == next_conflict(
                        palette@,
                        similarity as int,
                        i as int,
                        j as int,
                    ),
                decreases 16 - j,
            {
                if let Some(second) = palette[j] {
                    if compare_colors(&first, &second, 1000, 1000, 1000) < similarity {
                        proof {
                            lemma_next_conflict(palette@, similarity as int, i as int, j as int);
                        }
                        return Some((i, j));
                    }
                }
                j = j + 1;
            }
        } else {
            proof {
                lemma_skip_empty(palette@, similarity as int, i as int, i + 1);
            }
        }
        i = i + 1;
    }
    None
}

/// An empty slot is in conflict with none.
proof fn lemma_skip_empty(p: Seq<Option<Rgb>>, similarity: int, i: int, j: int)
    requires
        8 <= i < j <= 16,
        i < 15,
        p[i].is_none(),
    ensures
        next_conflict(p, similarity, i, j) == next_conflict(p, similarity, i + 1, i + 2),
    decreases 16 - j,
{
    if j < 16 {
        lemma_skip_empty(p, similarity, i, j + 1);
    }
}

/// The slot draws from its queue.
pub(crate) fn draw_slot(index: &mut Vec<CandidateQueue>, palette: &mut Vec<Option<Rgb>>, slot: usize)
    requires
        old(index)@.len() == 16,
        old(palette)@.len() == 16,
        slot < 16,
    ensures
        board_of(final(palette)@, final(index)@) == draw(
            board_of(old(palette)@, old(index)@),
            slot as int,
        ),
        final(index)@.len() == 16,
        final(palette)@.len() == 16,
{
    let ghost before = queues_of(index@);
    let top = index[slot].pop();
    let color = match top {
        Some(entry) => Some(entry.rgb),
        None => None,
    };
    palette[slot] = color;
    proof {
        let after = queues_of(index@);
        if before[slot as int].len() == 0 {
            assert(after =~= before);
        } else {
            assert(after =~= before.update(slot as int, before[slot as int].drop_last()));
        }
    }
}

/// Settles the conflicts among the chromatic slots, one after the other,
/// until none is left.
pub fn check_and_replace(
    index: &mut Vec<CandidateQueue>,
    palette: &mut Vec<Option<Rgb>>,
    config: &Config,
)
    requires
        old(index)@.len() == 16,
        old(palette)@.len() == 16,
        config.wf(),
    ensures
        final(index)@.len() == 16,
        final(palette)@.len() == 16,
        board_of(final(palette)@, final(index)@) == resolve(
            board_of(old(palette)@, old(index)@),
            config,
            load(board_of(old(palette)@, old(index)@)),
        ),
        settled(final(palette)@, config.similarity as int),
        final(palette)@[13] == old(palette)@[13],
        forall|k: int| 0 <= k < 8 ==> #[trigger] final(palette)@[k] == old(palette)@[k],
{
    let ghost start = board_of(palette@, index@);
    let ghost mut cap: nat = load(start);
    proof {
        lemma_resolve(start, config, cap);
    }
    loop
        invariant
            index@.len() == 16,
            palette@.len() == 16,
            config.wf(),
            start == board_of(old(palette)@, old(index)@),
            cap >= load(board_of(palette@, index@)),
            resolve(start, config, load(start)) == resolve(
                board_of(palette@, index@),
                config,
                cap,
            ),
            settled(resolve(start, config, load(start)).palette, config.similarity as int),
            resolve(start, config, load(start)).palette[13] == start.palette[13],
            forall|k: int|
                0 <= k < 8 ==> #[trigger] resolve(start, config, load(start)).palette[k]
                    == start.palette[k],
        decreases cap,
    {
        let ghost board = board_of(palette@, index@);
        match find_conflict(palette, config.similarity) {
            None => {
                proof {
                    assert(first_conflict(board.palette, config.similarity as int).is_none());
                    assert(resolve(board, config, cap) == board);
                }
                return ;
            },
            Some((i, j)) => {
                proof {
                    lemma_next_conflict(palette@, config.similarity as int, 8, 9);
                }
                let v = choose_victim(palette, config, i, j);
                proof {
                    lemma_draw(board, v as int);
                    assert(cap > 0);
                    assert(resolve(board, config, cap) == resolve(
                        draw(board, v as int),
                        config,
                        (cap - 1) as nat,
                    ));
                }
                draw_slot(index, palette, v);
                proof {
                    cap = (cap - 1) as nat;
                }
            },
        }
    }
}

/// Which of two slots in conflict gives way.
pub(crate) fn choose_victim(palette: &Vec<Option<Rgb>>, config: &Config, i: usize, j: usize) -> (v:
    usize)
    requires
        palette@.len() == 16,
        config.wf(),
        8 <= i < j < 16,
        palette@[i as int].is_some(),
        palette@[j as int].is_some(),
    ensures
        v == victim(palette@, config, i as int, j as int),
        v == i || v == j,
{
    if j == 13 {
        i
    } else if i == 13 {
        j
    } else {
        let first = palette[i].unwrap();
        let second = palette[j].unwrap();
        let d1 = compare_colors(
            &first,
            &config.template_colors[i],
            config.hue_compare,
            config.chroma_compare,
            config.light_compare,
        );
        let d2 = compare_colors(
            &second,
            &config.template_colors[j],
            config.hue_compare,
            config.chroma_compare,
            config.light_compare,
        );
        if d1 > d2 {
            i
        } else {
            j
        }
    }
}

} // verus!
