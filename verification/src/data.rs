//! From the weighted candidates to the sixteen slots: the accent, the
//! candidates of each slot, and the palette.

use vstd::prelude::*;
use crate::Rgb;
use crate::color::{colorful, distance, is_colorful, compare_colors};
use crate::quantize::{
    ColorCount, CandidateQueue, ranked, rank_le, ranking, lemma_ranking, lemma_ranked_unique,
};
use crate::config::Config;
use crate::conflict::{
    Board, board_of, board_wf, draw, load, queues_of, resolve, settled, lemma_resolve,
    check_and_replace, draw_slot,
};
use crate::gray::{grays, nearest, assign_grayscale_colors, lemma_nearest};
use crate::fallback::{generated, gen_color};

verus! {

/// Why no palette can be built.
#[derive(Clone, Copy, Debug, PartialEq, Eq, Structural)]
pub enum PaletteError {
    /// No candidate is colorful, so there is no accent.
    NoAccentCandidate,
}

/// The candidates of each of the sixteen slots.
pub type CandidateIndex = Vec<CandidateQueue>;

/// The color of the highest-ranking colorful entry, if any entry is
/// colorful.
pub open spec fn accent_of(s: Seq<ColorCount>, threshold: int) -> Option<Rgb>
    decreases s.len(),
{
    if s.len() == 0 {
        None
    } else if colorful(s.last().rgb, threshold) {
        Some(s.last().rgb)
    } else {
        accent_of(s.drop_last(), threshold)
    }
}

/// The entries whose color is not `rgb`, in their order.
pub open spec fn without(s: Seq<ColorCount>, rgb: Rgb) -> Seq<ColorCount>
    decreases s.len(),
{
    if s.len() == 0 {
        s
    } else if s.last().rgb == rgb {
        without(s.drop_last(), rgb)
    } else {
        without(s.drop_last(), rgb).push(s.last())
    }
}

/// The candidate color qualifies for the slot: it is within `likeness` of
/// the slot's reference color and, for a chromatic slot, colorful.
pub open spec fn accepts(config: &Config, slot: int, rgb: Rgb) -> bool {
    &&& distance(
        config.template_colors@[slot],
        rgb,
        config.hue_compare as int,
        config.chroma_compare as int,
        config.light_compare as int,
    ) <= config.likeness
    &&& (slot < 8 || colorful(rgb, config.vibrancy as int))
}

/// The entries that qualify for the slot, in their order.
pub open spec fn eligible(s: Seq<ColorCount>, config: &Config, slot: int) -> Seq<ColorCount>
    decreases s.len(),
{
    if s.len() == 0 {
        s
    } else if accepts(config, slot, s.last().rgb) {
        eligible(s.drop_last(), config, slot).push(s.last())
    } else {
        eligible(s.drop_last(), config, slot)
    }
}

/// Every entry of `r` is an entry of `s`.
pub open spec fn drawn_from(r: Seq<ColorCount>, s: Seq<ColorCount>) -> bool {
    forall|k: int| 0 <= k < r.len() ==> s.contains(#[trigger] r[k])
}

/// A rising sequence without its last entry still rises.
proof fn lemma_front_ranked(s: Seq<ColorCount>)
    requires
        ranked(s),
        s.len() > 0,
    ensures
        ranked(s.drop_last()),
{
    let r = s.drop_last();
    assert forall|i: int, j: int| 0 <= i <= j < r.len() implies rank_le(
        #[trigger] r[i],
        #[trigger] r[j],
    ) by {
        assert(rank_le(s[i], s[j]));
    }
}

/// Entries taken in their order from a rising sequence rise, with or
/// without the last of them.
proof fn lemma_extend_ranked(r: Seq<ColorCount>, s: Seq<ColorCount>, keep: bool)
    requires
        s.len() > 0,
        ranked(s),
        ranked(r),
        drawn_from(r, s.drop_last()),
    ensures
        keep ==> ranked(r.push(s.last())) && drawn_from(r.push(s.last()), s),
        drawn_from(r, s),
{
    let front = s.drop_last();
    assert forall|k: int| 0 <= k < r.len() implies s.contains(#[trigger] r[k]) by {
        assert(front.contains(r[k]));
        let j = choose|j: int| 0 <= j < front.len() && front[j] == r[k];
        assert(s[j] == r[k]);
    }
    if keep {
        let e = r.push(s.last());
        assert forall|i: int, j: int| 0 <= i <= j < e.len() implies rank_le(
            #[trigger] e[i],
            #[trigger] e[j],
        ) by {
            if j == r.len() {
                if i < r.len() {
                    assert(s.contains(r[i]));
                    let k = choose|k: int| 0 <= k < s.len() && s[k] == r[i];
                    assert(rank_le(s[k], s[s.len() - 1]));
                } else {
                    assert(rank_le(s[s.len() - 1], s[s.len() - 1]));
                }
            } else {
                assert(rank_le(r[i], r[j]));
            }
        }
        assert forall|k: int| 0 <= k < e.len() implies s.contains(#[trigger] e[k]) by {
            if k == r.len() {
                assert(s[s.len() - 1] == e[k]);
            } else {
                assert(s.contains(r[k]));
            }
        }
    }
}

/// Leaving a color out keeps the ranks rising.
pub proof fn lemma_without_ranked(s: Seq<ColorCount>, rgb: Rgb)
    requires
        ranked(s),
    ensures
        ranked(without(s, rgb)),
        drawn_from(without(s, rgb), s),
        forall|k: int| 0 <= k < without(s, rgb).len() ==> (#[trigger] without(s, rgb)[k]).rgb != rgb,
    decreases s.len(),
{
    if s.len() > 0 {
        lemma_front_ranked(s);
        lemma_without_ranked(s.drop_last(), rgb);
        lemma_extend_ranked(without(s.drop_last(), rgb), s, s.last().rgb != rgb);
    }
}

/// The entries that qualify for a slot rise in rank as all the entries do.
pub proof fn lemma_eligible_ranked(s: Seq<ColorCount>, config: &Config, slot: int)
    requires
        ranked(s),
    ensures
        ranked(eligible(s, config, slot)),
        drawn_from(eligible(s, config, slot), s),
        forall|k: int|
            0 <= k < eligible(s, config, slot).len() ==> accepts(
                config,
                slot,
                (#[trigger] eligible(s, config, slot)[k]).rgb,
            ),
    decreases s.len(),
{
    if s.len() > 0 {
        lemma_front_ranked(s);
        lemma_eligible_ranked(s.drop_last(), config, slot);
        lemma_extend_ranked(
            eligible(s.drop_last(), config, slot),
            s,
            accepts(config, slot, s.last().rgb),
        );
    }
}

/// `accent` is the color of a colorful entry that no colorful entry
/// outranks.
pub open spec fn highest_colorful(s: Seq<ColorCount>, accent: Rgb, threshold: int) -> bool {
    exists|i: int|
        0 <= i < s.len() && (#[trigger] s[i]).rgb == accent && colorful(accent, threshold)
            && forall|j: int|
            0 <= j < s.len() && colorful((#[trigger] s[j]).rgb, threshold) ==> rank_le(s[j], s[i])
}

/// The accent is the color of a colorful entry that no colorful entry
/// outranks; without an accent no entry is colorful.
pub proof fn lemma_accent_is_highest(s: Seq<ColorCount>, threshold: int)
    requires
        ranked(s),
    ensures
        match accent_of(s, threshold) {
            Some(accent) => highest_colorful(s, accent, threshold),
            None => forall|j: int| 0 <= j < s.len() ==> !colorful((#[trigger] s[j]).rgb, threshold),
        },
    decreases s.len(),
{
    if s.len() > 0 {
        let last = s.len() - 1;
        if colorful(s.last().rgb, threshold) {
            assert(s[last].rgb == s.last().rgb);
            assert forall|j: int|
                0 <= j < s.len() && colorful((#[trigger] s[j]).rgb, threshold) implies rank_le(
                s[j],
                s[last],
            ) by {}
        } else {
            lemma_front_ranked(s);
            let front = s.drop_last();
            lemma_accent_is_highest(front, threshold);
            match accent_of(front, threshold) {
                Some(accent) => {
                    let i = choose|i: int|
                        0 <= i < front.len() && (#[trigger] front[i]).rgb == accent && colorful(
                            accent,
                            threshold,
                        ) && forall|j: int|
                            0 <= j < front.len() && colorful((#[trigger] front[j]).rgb, threshold)
                                ==> rank_le(front[j], front[i]);
                    assert(s[i] == front[i]);
                    assert forall|j: int|
                        0 <= j < s.len() && colorful(
                            (#[trigger] s[j]).rgb,
                            threshold,
                        ) implies rank_le(s[j], s[i]) by {
                        assert(j < front.len());
                        assert(front[j] == s[j]);
                    }
                },
                None => {
                    assert forall|j: int| 0 <= j < s.len() implies !colorful(
                        (#[trigger] s[j]).rgb,
                        threshold,
                    ) by {
                        if j < front.len() {
                            assert(front[j] == s[j]);
                        }
                    }
                },
            }
        }
    }
}

/// Takes the accent out of the candidates: the color of the highest-ranking
/// colorful candidate. Every candidate of that color leaves the queue.
/// Without a colorful candidate there is no accent, and the queue stays as
/// it is.
pub fn get_accent(input: &mut CandidateQueue, threshold: u8) -> (r: Result<Rgb, PaletteError>)
    ensures
        match accent_of(old(input)@, threshold as int) {
            Some(accent) => r == Ok::<Rgb, PaletteError>(accent) && final(input)@ == without(
                old(input)@,
                accent,
            ),
            None => r == Err::<Rgb, PaletteError>(PaletteError::NoAccentCandidate)
                && final(input)@ == old(input)@,
        },
        r.is_ok() ==> highest_colorful(old(input)@, r.unwrap(), threshold as int),
        r.is_err() ==> forall|j: int|
            0 <= j < old(input)@.len() ==> !colorful(
                (#[trigger] old(input)@[j]).rgb,
                threshold as int,
            ),
{
    let n = input.len();
    proof {
        lemma_accent_is_highest(input@, threshold as int);
    }
    let mut i: usize = n;
    proof {
        assert(input@.take(n as int) =~= input@);
    }
    while i > 0 && !is_colorful(&input.get(i - 1).rgb, threshold)
        invariant
            i <= n,
            n == input@.len(),
            input@ == old(input)@,
            accent_of(input@, threshold as int) == accent_of(
                input@.take(i as int),
                threshold as int,
            ),
        decreases i,
    {
        proof {
            let s = input@.take(i as int);
            assert(s.last() == input@[i - 1]);
            assert(s.drop_last() =~= input@.take(i - 1));
        }
        i = i - 1;
    }
    if i == 0 {
        return Err(PaletteError::NoAccentCandidate);
    }
    let accent = input.get(i - 1).rgb;
    proof {
        let s = input@.take(i as int);
        assert(s.last() == input@[i - 1]);
    }
    let mut kept: Vec<ColorCount> = Vec::new();
    let mut k: usize = 0;
    while k < n
        invariant
            k <= n,
            n == input@.len(),
            input@ == old(input)@,
            kept@ == without(input@.take(k as int), accent),
        decreases n - k,
    {
        let item = input.get(k);
        proof {
            let s = input@.take(k + 1);
            assert(s.last() == input@[k as int]);
            assert(s.drop_last() =~= input@.take(k as int));
        }
        if !(item.rgb.0 == accent.0 && item.rgb.1 == accent.1 && item.rgb.2 == accent.2) {
            kept.push(item);
        }
        k = k + 1;
    }
    proof {
        assert(input@.take(n as int) =~= input@);
        lemma_without_ranked(input@, accent);
    }
    *input = CandidateQueue::from_ranked(kept);
    Ok(accent)
}

/// Builds the queue of each slot: the candidates that qualify for it.
pub fn map_colors(candidate_colors: CandidateQueue, config: &Config) -> (index: CandidateIndex)
    requires
        config.wf(),
    ensures
        index@.len() == 16,
        forall|slot: int|
            0 <= slot < 16 ==> (#[trigger] index@[slot])@ == eligible(
                candidate_colors@,
                config,
                slot,
            ),
{
    let n = candidate_colors.len();
    let mut index: Vec<CandidateQueue> = Vec::new();
    let mut slot: usize = 0;
    while slot < 16
        invariant
            slot <= 16,
            config.wf(),
            n == candidate_colors@.len(),
            ranked(candidate_colors@),
            index@.len() == slot,
            forall|t: int|
                0 <= t < slot ==> (#[trigger] index@[t])@ == eligible(
                    candidate_colors@,
                    config,
                    t,
                ),
        decreases 16 - slot,
    {
        let reference = config.template_colors[slot];
        let mut kept: Vec<ColorCount> = Vec::new();
        let mut k: usize = 0;
        while k < n
            invariant
                k <= n,
                slot < 16,
                config.wf(),
                n == candidate_colors@.len(),
                reference == config.template_colors@[slot as int],
                kept@ == eligible(candidate_colors@.take(k as int), config, slot as int),
            decreases n - k,
        {
            let item = candidate_colors.get(k);
            proof {
                let s = candidate_colors@.take(k + 1);
                assert(s.last() == candidate_colors@[k as int]);
                assert(s.drop_last() =~= candidate_colors@.take(k as int));
            }
            if compare_colors(
                &reference,
                &item.rgb,
                config.hue_compare,
                config.chroma_compare,
                config.light_compare,
            ) <= config.likeness && (slot < 8 || is_colorful(&item.rgb, config.vibrancy)) {
                kept.push(item);
            }
            k = k + 1;
        }
        proof {
            assert(candidate_colors@.take(n as int) =~= candidate_colors@);
            lemma_eligible_ranked(candidate_colors@, config, slot as int);
        }
        index.push(CandidateQueue::from_ranked(kept));
        slot = slot + 1;
    }
    index
}

/// The board after the chromatic slots from `slot` on, the accent's slot 13
/// left out, have each drawn from their queue.
pub open spec fn fill_from(b: Board, slot: int) -> Board
    decreases 16 - slot,
{
    if slot >= 16 {
        b
    } else if slot == 13 {
        fill_from(b, 14)
    } else {
        fill_from(draw(b, slot), slot + 1)
    }
}

/// The board before any conflict is settled: the gray slots assigned, the
/// accent in slot 13, and every other chromatic slot with the first draw
/// from its queue.
pub open spec fn seeded(queues: Seq<Seq<ColorCount>>, accent: Rgb, config: &Config) -> Board {
    fill_from(Board { palette: grays(queues, config).update(13, Some(accent)), queues }, 8)
}

/// The board after the conflicts among the chromatic slots are settled.
pub open spec fn resolved(queues: Seq<Seq<ColorCount>>, accent: Rgb, config: &Config) -> Board {
    resolve(seeded(queues, accent, config), config, load(seeded(queues, accent, config)))
}

/// The palette with a generated color in every chromatic slot from `slot`
/// on that is empty, the lower slots first.
pub open spec fn patched_from(p: Seq<Option<Rgb>>, config: &Config, accent: Rgb, slot: int) -> Seq<
    Option<Rgb>,
>
    decreases 16 - slot,
{
    if slot >= 16 {
        p
    } else if p[slot].is_some() {
        patched_from(p, config, accent, slot + 1)
    } else {
        patched_from(
            p.update(slot, Some(generated(p, config, accent, slot))),
            config,
            accent,
            slot + 1,
        )
    }
}

/// The palette that is built from the queues, the accent and the
/// configuration.
pub open spec fn built(queues: Seq<Seq<ColorCount>>, accent: Rgb, config: &Config) -> Seq<
    Option<Rgb>,
> {
    patched_from(resolved(queues, accent, config).palette, config, accent, 8)
}

/// The first draws leave the gray slots, their queues and the accent alone.
pub proof fn lemma_fill_from(b: Board, slot: int)
    requires
        board_wf(b),
        8 <= slot <= 16,
    ensures
        board_wf(fill_from(b, slot)),
        fill_from(b, slot).palette[13] == b.palette[13],
        forall|k: int| 0 <= k < 8 ==> #[trigger] fill_from(b, slot).palette[k] == b.palette[k],
        forall|k: int| 0 <= k < 8 ==> #[trigger] fill_from(b, slot).queues[k] == b.queues[k],
    decreases 16 - slot,
{
    if slot >= 16 {
    } else if slot == 13 {
        lemma_fill_from(b, 14);
    } else {
        let d = draw(b, slot);
        lemma_fill_from(d, slot + 1);
        assert forall|k: int| 0 <= k < 8 implies #[trigger] fill_from(b, slot).palette[k]
            == b.palette[k] by {
            assert(fill_from(d, slot + 1).palette[k] == d.palette[k]);
        }
        assert forall|k: int| 0 <= k < 8 implies #[trigger] fill_from(b, slot).queues[k]
            == b.queues[k] by {
            assert(fill_from(d, slot + 1).queues[k] == d.queues[k]);
        }
    }
}

/// Patching fills every chromatic slot from `slot` on and changes no slot
/// that holds a color.
pub proof fn lemma_patched_from(p: Seq<Option<Rgb>>, config: &Config, accent: Rgb, slot: int)
    requires
        p.len() == 16,
        8 <= slot <= 16,
    ensures
        patched_from(p, config, accent, slot).len() == 16,
        forall|k: int|
            slot <= k < 16 ==> (#[trigger] patched_from(p, config, accent, slot)[k]).is_some(),
        forall|k: int|
            0 <= k < 16 && (k < slot || p[k].is_some()) ==> #[trigger] patched_from(
                p,
                config,
                accent,
                slot,
            )[k] == p[k],
    decreases 16 - slot,
{
    if slot >= 16 {
    } else if p[slot].is_some() {
        lemma_patched_from(p, config, accent, slot + 1);
    } else {
        lemma_patched_from(
            p.update(slot, Some(generated(p, config, accent, slot))),
            config,
            accent,
            slot + 1,
        );
    }
}

/// What holds of every palette that is built: it has sixteen slots; the
/// gray slots hold the nearest color of their queues; slot 13 holds the
/// accent; every chromatic slot holds a color; and the chromatic slots that
/// a candidate or the accent filled are no closer to each other than the
/// similarity threshold.
pub proof fn lemma_built(queues: Seq<Seq<ColorCount>>, accent: Rgb, config: &Config)
    requires
        queues.len() == 16,
    ensures
        built(queues, accent, config).len() == 16,
        forall|k: int|
            0 <= k < 8 ==> #[trigger] built(queues, accent, config)[k] == nearest(
                queues[k],
                config,
                k,
            ),
        built(queues, accent, config)[13] == Some(accent),
        forall|k: int| 8 <= k < 16 ==> (#[trigger] built(queues, accent, config)[k]).is_some(),
        settled(resolved(queues, accent, config).palette, config.similarity as int),
        forall|k: int|
            0 <= k < 16 && (#[trigger] resolved(queues, accent, config).palette[k]).is_some()
                ==> built(queues, accent, config)[k] == resolved(queues, accent, config).palette[k],
{
    let first = Board { palette: grays(queues, config).update(13, Some(accent)), queues };
    lemma_fill_from(first, 8);
    let s = seeded(queues, accent, config);
    lemma_resolve(s, config, load(s));
    let r = resolved(queues, accent, config);
    lemma_patched_from(r.palette, config, accent, 8);
    let p = built(queues, accent, config);
    assert forall|k: int| 0 <= k < 8 implies #[trigger] p[k] == nearest(queues[k], config, k) by {
        assert(p[k] == r.palette[k]);
        assert(r.palette[k] == s.palette[k]);
        assert(s.palette[k] == first.palette[k]);
        assert(first.palette[k] == grays(queues, config)[k]);
    }
}

/// Builds the palette. The gray slots take the nearest color of their
/// queues. Slot 13 takes the accent. Every other chromatic slot draws the
/// highest-ranking candidate of its queue; conflicts among the chromatic
/// slots are settled; and a slot that is empty after that gets a generated
/// color.
pub fn create_palette(index: &mut CandidateIndex, accent_color: Rgb, config: &Config) -> (palette:
    Vec<Option<Rgb>>)
    requires
        old(index)@.len() == 16,
        config.wf(),
    ensures
        palette@ == built(queues_of(old(index)@), accent_color, config),
        final(index)@.len() == 16,
        queues_of(final(index)@) == resolved(queues_of(old(index)@), accent_color, config).queues,
        palette@.len() == 16,
        palette@[13] == Some(accent_color),
        forall|k: int| 8 <= k < 16 ==> (#[trigger] palette@[k]).is_some(),
        forall|k: int|
            0 <= k < 8 ==> #[trigger] palette@[k] == nearest(old(index)@[k]@, config, k),
        forall|k: int|
            0 <= k < 8 ==> ((#[trigger] palette@[k]).is_none() <==> old(index)@[k]@.len() == 0),
        settled(
            resolved(queues_of(old(index)@), accent_color, config).palette,
            config.similarity as int,
        ),
        forall|k: int|
            0 <= k < 16 && (#[trigger] resolved(
                queues_of(old(index)@),
                accent_color,
                config,
            ).palette[k]).is_some() ==> palette@[k] == resolved(
                queues_of(old(index)@),
                accent_color,
                config,
            ).palette[k],
{
    let ghost queues = queues_of(index@);
    let mut palette = assign_grayscale_colors(index, config);
    palette[13] = Some(accent_color);
    let mut i: usize = 8;
    while i < 16
        invariant
            8 <= i <= 16,
            index@.len() == 16,
            palette@.len() == 16,
            queues == queues_of(old(index)@),
            seeded(queues, accent_color, config) == fill_from(
                board_of(palette@, index@),
                i as int,
            ),
        decreases 16 - i,
    {
        if i != 13 {
            draw_slot(index, &mut palette, i);
        }
        i = i + 1;
    }
    check_and_replace(index, &mut palette, config);
    i = 8;
    while i < 16
        invariant
            8 <= i <= 16,
            index@.len() == 16,
            palette@.len() == 16,
            config.wf(),
            queues == queues_of(old(index)@),
            queues_of(index@) == resolved(queues, accent_color, config).queues,
            built(queues, accent_color, config) == patched_from(
                palette@,
                config,
                accent_color,
                i as int,
            ),
        decreases 16 - i,
    {
        if palette[i].is_none() {
            let color = gen_color(&palette, &accent_color, config, i);
            palette[i] = Some(color);
        }
        i = i + 1;
    }
    proof {
        lemma_built(queues, accent_color, config);
        assert forall|k: int| 0 <= k < 8 implies ((#[trigger] palette@[k]).is_none() <==> old(
            index,
        )@[k]@.len() == 0) by {
            lemma_nearest(queues[k], config, k);
        }
    }
    palette
}

/// The queue of each slot for the candidates `s`.
pub open spec fn index_of(s: Seq<ColorCount>, config: &Config) -> Seq<Seq<ColorCount>> {
    Seq::new(16, |slot: int| eligible(s, config, slot))
}

/// The palette of a collection of candidates: none without a colorful
/// candidate; otherwise the palette built for the accent from the queues of
/// the candidates that are left.
pub open spec fn palette_of(candidates: Seq<ColorCount>, config: &Config) -> Option<
    Seq<Option<Rgb>>,
> {
    let ranks = ranking(candidates);
    match accent_of(ranks, config.vibrancy as int) {
        None => None,
        Some(accent) => Some(built(index_of(without(ranks, accent), config), accent, config)),
    }
}

/// Runs the whole way from the candidates to the palette: the accent, the
/// queues of the slots, the palette.
pub fn build_palette(candidates: &Vec<ColorCount>, config: &Config) -> (r: Result<
    Vec<Option<Rgb>>,
    PaletteError,
>)
    requires
        config.wf(),
    ensures
        match palette_of(candidates@, config) {
            Some(palette) => r.is_ok() && r.unwrap()@ == palette,
            None => r == Err::<Vec<Option<Rgb>>, PaletteError>(PaletteError::NoAccentCandidate),
        },
{
    let mut queue = CandidateQueue::from_vec(candidates);
    match get_accent(&mut queue, config.vibrancy) {
        Err(e) => Err(e),
        Ok(accent) => {
            let ghost left = queue@;
            let mut index = map_colors(queue, config);
            proof {
                assert(queues_of(index@) =~= index_of(left, config));
            }
            Ok(create_palette(&mut index, accent, config))
        },
    }
}

/// Two collections that hold the same candidates, each as often as the
/// other, give the same queue, the same accent and the same palette: the
/// order in which the candidates arrive does not matter, and neither does
/// the run.
pub proof fn lemma_same_candidates(v1: Seq<ColorCount>, v2: Seq<ColorCount>, config: &Config)
    requires
        v1.to_multiset() == v2.to_multiset(),
    ensures
        ranking(v1) == ranking(v2),
        accent_of(ranking(v1), config.vibrancy as int) == accent_of(
            ranking(v2),
            config.vibrancy as int,
        ),
        palette_of(v1, config) == palette_of(v2, config),
{
    lemma_ranking(v1);
    lemma_ranking(v2);
    lemma_ranked_unique(ranking(v1), ranking(v2));
}

} // verus!
