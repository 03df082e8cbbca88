//! The gray slots: each takes, from the candidates of its queue, the one
//! nearest to its reference color.

use vstd::prelude::*;
use crate::Rgb;
use crate::color::{distance_fine, compare_fine};
use crate::quantize::{ColorCount, CandidateQueue};
use crate::config::Config;
use crate::conflict::queues_of;

verus! {

/// The distance of a color from the reference color of a gray slot. Grays
/// are compared with twice the hue weight, so that hue counts for less, and
/// with nine tenths of the lightness weight, so that lightness counts for
/// more.
pub open spec fn gray_distance(config: &Config, rgb: Rgb, slot: int) -> int {
    distance_fine(
        rgb,
        config.template_colors@[slot],
        20 * config.hue_compare,
        10 * config.chroma_compare,
        9 * config.light_compare,
    )
}

/// The place of the entry nearest to the reference color of the slot, -1
/// for no entries. Among entries at the same distance the highest-ranking
/// one counts as nearest.
pub open spec fn nearest_index(s: Seq<ColorCount>, config: &Config, slot: int) -> int
    decreases s.len(),
{
    if s.len() == 0 {
        -1
    } else {
        let before = nearest_index(s.drop_last(), config, slot);
        if before < 0 || gray_distance(config, s.last().rgb, slot) <= gray_distance(
            config,
            s[before].rgb,
            slot,
        ) {
            s.len() - 1
        } else {
            before
        }
    }
}

/// The color nearest to the reference color of the slot, if there is any
/// entry.
pub open spec fn nearest(s: Seq<ColorCount>, config: &Config, slot: int) -> Option<Rgb> {
    let i = nearest_index(s, config, slot);
    if i < 0 {
        None
    } else {
        Some(s[i].rgb)
    }
}

/// The palette with the gray slots assigned and the others empty.
pub open spec fn grays(queues: Seq<Seq<ColorCount>>, config: &Config) -> Seq<Option<Rgb>> {
    Seq::new(
        16,
        |i: int|
            if i < 8 {
                nearest(queues[i], config, i)
            } else {
                None
            },
    )
}

/// The nearest entry is an entry, no entry is nearer, and every entry that
/// ranks higher is farther.
pub proof fn lemma_nearest(s: Seq<ColorCount>, config: &Config, slot: int)
    ensures
        s.len() == 0 ==> nearest_index(s, config, slot) == -1,
        s.len() > 0 ==> 0 <= nearest_index(s, config, slot) < s.len(),
        forall|j: int|
            0 <= j < s.len() ==> gray_distance(
                config,
                s[nearest_index(s, config, slot)].rgb,
                slot,
            ) <= gray_distance(config, (#[trigger] s[j]).rgb, slot),
        forall|j: int|
            nearest_index(s, config, slot) < j < s.len() ==> gray_distance(
                config,
                s[nearest_index(s, config, slot)].rgb,
                slot,
            ) < gray_distance(config, (#[trigger] s[j]).rgb, slot),
    decreases s.len(),
{
    if s.len() > 0 {
        let front = s.drop_last();
        lemma_nearest(front, config, slot);
        let before = nearest_index(front, config, slot);
        let now = nearest_index(s, config, slot);
        assert forall|j: int| 0 <= j < s.len() implies gray_distance(config, s[now].rgb, slot)
            <= gray_distance(config, (#[trigger] s[j]).rgb, slot) by {
            if j < front.len() {
                assert(front[j] == s[j]);
            }
        }
        assert forall|j: int| now < j < s.len() implies gray_distance(config, s[now].rgb, slot)
            < gray_distance(config, (#[trigger] s[j]).rgb, slot) by {
            if j < front.len() {
                assert(front[j] == s[j]);
            }
        }
    }
}

/// The color of the queue that is nearest to the reference color of the
/// slot.
fn nearest_in(queue: &CandidateQueue, config: &Config, slot: usize) -> (best: Option<Rgb>)
    requires
        config.wf(),
        slot < 16,
    ensures
        best == nearest(queue@, config, slot as int),
{
    let reference = config.template_colors[slot];
    let n = queue.len();
    let mut best: Option<Rgb> = None;
    let mut best_distance: u16 = 0;
    let mut k: usize = 0;
    while k < n
        invariant
            k <= n,
            n == queue@.len(),
            config.wf(),
            slot < 16,
            reference == config.template_colors@[slot as int],
            best == nearest(queue@.take(k as int), config, slot as int),
            best.is_some() ==> best_distance == gray_distance(
                config,
                queue@[nearest_index(queue@.take(k as int), config, slot as int)].rgb,
                slot as int,
            ),
        decreases n - k,
    {
        let item = queue.get(k);
        proof {
            let s = queue@.take(k + 1);
            assert(s.last() == queue@[k as int]);
            assert(s.drop_last() =~= queue@.take(k as int));
            lemma_nearest(queue@.take(k as int), config, slot as int);
        }
        let d = compare_fine(
            &item.rgb,
            &reference,
            20 * (config.hue_compare as u64),
            10 * (config.chroma_compare as u64),
            9 * (config.light_compare as u64),
        );
        if best.is_none() || d <= best_distance {
            best = Some(item.rgb);
            best_distance = d;
        }
        k = k + 1;
    }
    proof {
        assert(queue@.take(n as int) =~= queue@);
    }
    best
}

/// Assigns the gray slots, 0 to 7: each gets the color of its queue that is
/// nearest to its reference color, and stays empty where the queue is
/// empty. No queue changes. The other slots are left empty.
pub fn assign_grayscale_colors(index: &Vec<CandidateQueue>, config: &Config) -> (palette: Vec<
    Option<Rgb>,
>)
    requires
        index@.len() == 16,
        config.wf(),
    ensures
        palette@ == grays(queues_of(index@), config),
{
    let mut palette: Vec<Option<Rgb>> = Vec::new();
    let mut i: usize = 0;
    while i < 16
        invariant
            i <= 16,
            index@.len() == 16,
            config.wf(),
            palette@.len() == i,
            forall|k: int| 0 <= k < i ==> #[trigger] palette@[k] == grays(queues_of(index@), config)[k],
        decreases 16 - i,
    {
        if i < 8 {
            let best = nearest_in(&index[i], config, i);
            palette.push(best);
        } else {
            palette.push(None);
        }
        i = i + 1;
    }
    proof {
        assert(palette@ =~= grays(queues_of(index@), config));
    }
    palette
}

} // verus!
