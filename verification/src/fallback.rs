//! A color for a chromatic slot that no candidate filled.
//!
//! The search starts from the slot's reference color mixed toward the
//! accent. While the point is within the similarity threshold of the slot's
//! reference color, it is tweaked, at most 65535 times. Of the points passed,
//! the one farthest from the colors that the chromatic slots already hold is
//! the result, whether or not the search left the threshold behind. A
//! starting point beyond the threshold is the result as it is.

use vstd::prelude::*;
use crate::Rgb;
use crate::color::{distance, mixed, tweaked, compare_colors, mix_colors, tweak_color};
use crate::config::Config;

verus! {

/// The number of tweaks that a search may make.
pub const TWEAK_CAP: u32 = 65535;

/// The distance of two colors under the weights of the configuration.
pub open spec fn config_distance(config: &Config, a: Rgb, b: Rgb) -> int {
    distance(
        a,
        b,
        config.hue_compare as int,
        config.chroma_compare as int,
        config.light_compare as int,
    )
}

/// The least distance of `c` from the colors in the chromatic slots from
/// `slot` on; 65535 where none of them holds a color.
pub open spec fn separation_from(p: Seq<Option<Rgb>>, config: &Config, c: Rgb, slot: int) -> int
    decreases 16 - slot,
{
    if slot >= 16 {
        65535
    } else {
        let rest = separation_from(p, config, c, slot + 1);
        match p[slot] {
            Some(placed) => if config_distance(config, c, placed) < rest {
                config_distance(config, c, placed)
            } else {
                rest
            },
            None => rest,
        }
    }
}

/// The least distance of `c` from the colors in the chromatic slots.
pub open spec fn separation(p: Seq<Option<Rgb>>, config: &Config, c: Rgb) -> int {
    separation_from(p, config, c, 8)
}

/// One tweak of the configuration.
pub open spec fn step(config: &Config, c: Rgb) -> Rgb {
    tweaked(
        c,
        config.hue_tweak as int,
        config.saturation_tweak as int,
        config.light_tweak as int,
    )
}

/// The point has left the reference color of the slot behind: it is
/// farther from it than the similarity threshold.
pub open spec fn leaves(config: &Config, slot: int, c: Rgb) -> bool {
    config_distance(config, c, config.template_colors@[slot]) > config.similarity
}

/// The result of a search for the slot that stands at `current`, has `best`
/// with the separation `best_sep` as the best point so far, and may make
/// `fuel` more tweaks.
pub open spec fn search(
    p: Seq<Option<Rgb>>,
    config: &Config,
    slot: int,
    current: Rgb,
    best: Rgb,
    best_sep: int,
    fuel: nat,
) -> Rgb
    decreases fuel,
{
    if fuel == 0 || leaves(config, slot, current) {
        best
    } else {
        let next = step(config, current);
        let sep = separation(p, config, next);
        if sep > best_sep {
            search(p, config, slot, next, next, sep, (fuel - 1) as nat)
        } else {
            search(p, config, slot, next, best, best_sep, (fuel - 1) as nat)
        }
    }
}

/// Where the search for the slot starts: the reference color mixed toward
/// the accent.
pub open spec fn start_point(config: &Config, accent: Rgb, slot: int) -> Rgb {
    mixed(
        config.template_colors@[slot],
        accent,
        config.hue_mix as int,
        config.saturation_mix as int,
        config.light_mix as int,
    )
}

/// The color generated for the slot.
pub open spec fn generated(p: Seq<Option<Rgb>>, config: &Config, accent: Rgb, slot: int) -> Rgb {
    let start = start_point(config, accent, slot);
    search(p, config, slot, start, start, separation(p, config, start), TWEAK_CAP as nat)
}

/// `c` is at least `bound` away from every color in the chromatic slots
/// from `slot` on.
pub open spec fn clear_of(p: Seq<Option<Rgb>>, config: &Config, c: Rgb, slot: int, bound: int) -> bool {
    forall|k: int|
        slot <= k < 16 && (#[trigger] p[k]).is_some() ==> config_distance(config, c, p[k].unwrap())
            >= bound
}

/// No color in the chromatic slots is nearer than the separation.
pub proof fn lemma_separation(p: Seq<Option<Rgb>>, config: &Config, c: Rgb, slot: int)
    requires
        8 <= slot <= 16,
    ensures
        separation_from(p, config, c, slot) <= 65535,
        clear_of(p, config, c, slot, separation_from(p, config, c, slot)),
    decreases 16 - slot,
{
    if slot < 16 {
        lemma_separation(p, config, c, slot + 1);
    }
}

/// A search that stands at a point which a tweak does not move, and whose
/// best point is at least as far out, ends with that best point.
pub proof fn lemma_search_still(
    p: Seq<Option<Rgb>>,
    config: &Config,
    slot: int,
    current: Rgb,
    best: Rgb,
    best_sep: int,
    fuel: nat,
)
    requires
        step(config, current) == current,
        best_sep >= separation(p, config, current),
    ensures
        search(p, config, slot, current, best, best_sep, fuel) == best,
    decreases fuel,
{
    if fuel > 0 {
        lemma_search_still(p, config, slot, current, best, best_sep, (fuel - 1) as nat);
    }
}

/// The result of a search is at least as far from the colors already placed
/// as the best point that the search started with.
pub proof fn lemma_search_best(
    p: Seq<Option<Rgb>>,
    config: &Config,
    slot: int,
    current: Rgb,
    best: Rgb,
    best_sep: int,
    fuel: nat,
)
    requires
        best_sep == separation(p, config, best),
    ensures
        separation(p, config, search(p, config, slot, current, best, best_sep, fuel)) >= best_sep,
    decreases fuel,
{
    if fuel == 0 || leaves(config, slot, current) {
    } else {
        let next = step(config, current);
        let sep = separation(p, config, next);
        if sep > best_sep {
            lemma_search_best(p, config, slot, next, next, sep, (fuel - 1) as nat);
        } else {
            lemma_search_best(p, config, slot, next, best, best_sep, (fuel - 1) as nat);
        }
    }
}

/// The point after `k` tweaks.
pub open spec fn stepped(config: &Config, c: Rgb, k: nat) -> Rgb
    decreases k,
{
    if k == 0 {
        c
    } else {
        stepped(config, step(config, c), (k - 1) as nat)
    }
}

/// The search for the slot passes every point up to the `k`-th: none
/// before it has left the reference color behind.
pub open spec fn reaches(config: &Config, slot: int, c: Rgb, k: nat) -> bool {
    forall|j: nat| j < k ==> !leaves(config, slot, #[trigger] stepped(config, c, j))
}

/// The result of a search is at least as far from the colors already placed
/// as every point that the search passes: it is the best point seen.
pub proof fn lemma_search_dominates(
    p: Seq<Option<Rgb>>,
    config: &Config,
    slot: int,
    current: Rgb,
    best: Rgb,
    best_sep: int,
    fuel: nat,
    k: nat,
)
    requires
        best_sep == separation(p, config, best),
        best_sep >= separation(p, config, current),
        k <= fuel,
        reaches(config, slot, current, k),
    ensures
        separation(p, config, search(p, config, slot, current, best, best_sep, fuel)) >= separation(
            p,
            config,
            stepped(config, current, k),
        ),
    decreases fuel,
{
    if k == 0 {
        lemma_search_best(p, config, slot, current, best, best_sep, fuel);
    } else {
        assert(stepped(config, current, 0) == current);
        assert(!leaves(config, slot, current));
        let next = step(config, current);
        let sep = separation(p, config, next);
        assert forall|j: nat| j < (k - 1) as nat implies !leaves(
            config,
            slot,
            #[trigger] stepped(config, next, j),
        ) by {
            assert(stepped(config, current, j + 1) == stepped(config, next, j));
        }
        if sep > best_sep {
            lemma_search_dominates(p, config, slot, next, next, sep, (fuel - 1) as nat, (k - 1) as nat);
        } else {
            lemma_search_dominates(
                p,
                config,
                slot,
                next,
                best,
                best_sep,
                (fuel - 1) as nat,
                (k - 1) as nat,
            );
        }
    }
}

/// The generated color is at least as far from the colors already placed
/// as every point that the search passes, the starting point among them.
pub proof fn lemma_generated_is_best(
    p: Seq<Option<Rgb>>,
    config: &Config,
    accent: Rgb,
    slot: int,
    k: nat,
)
    requires
        k <= TWEAK_CAP,
        reaches(config, slot, start_point(config, accent, slot), k),
    ensures
        separation(p, config, generated(p, config, accent, slot)) >= separation(
            p,
            config,
            stepped(config, start_point(config, accent, slot), k),
        ),
{
    let start = start_point(config, accent, slot);
    lemma_search_dominates(
        p,
        config,
        slot,
        start,
        start,
        separation(p, config, start),
        TWEAK_CAP as nat,
        k,
    );
}

/// The least distance of `c` from the colors in the chromatic slots.
pub(crate) fn separation_of(palette: &Vec<Option<Rgb>>, config: &Config, c: &Rgb) -> (sep: u16)
    requires
        palette@.len() == 16,
        config.wf(),
    ensures
        sep == separation(palette@, config, *c),
{
    let mut sep: u16 = 65535;
    let mut slot: usize = 16;
    while slot > 8
        invariant
            8 <= slot <= 16,
            palette@.len() == 16,
            config.wf(),
            sep == separation_from(palette@, config, *c, slot as int),
        decreases slot,
    {
        slot = slot - 1;
        if let Some(placed) = palette[slot] {
            let d = compare_colors(
                c,
                &placed,
                config.hue_compare,
                config.chroma_compare,
                config.light_compare,
            );
            if d < sep {
                sep = d;
            }
        }
    }
    sep
}

/// Generates a color for the slot `index`: the best point of the search
/// that starts from the slot's reference color mixed toward the accent, and
/// that goes on while the point is within the similarity threshold of the
/// reference color.
pub fn gen_color(palette: &Vec<Option<Rgb>>, accent: &Rgb, config: &Config, index: usize) -> (rgb:
    Rgb)
    requires
        palette@.len() == 16,
        config.wf(),
        index < 16,
    ensures
        rgb == generated(palette@, config, *accent, index as int),
        separation(palette@, config, rgb) >= separation(
            palette@,
            config,
            start_point(config, *accent, index as int),
        ),
        clear_of(palette@, config, rgb, 8, separation(palette@, config, rgb)),
        leaves(config, index as int, start_point(config, *accent, index as int)) ==> rgb
            == start_point(config, *accent, index as int),
{
    let reference = config.template_colors[index];
    let start = mix_colors(
        &reference,
        accent,
        config.hue_mix,
        config.saturation_mix,
        config.light_mix,
    );
    let mut current = start;
    let mut sep = separation_of(palette, config, &current);
    let mut best = start;
    let mut best_sep = sep;
    let mut gap = compare_colors(
        &current,
        &reference,
        config.hue_compare,
        config.chroma_compare,
        config.light_compare,
    );
    let mut fuel: u32 = TWEAK_CAP;
    proof {
        lemma_search_best(
            palette@,
            config,
            index as int,
            start,
            start,
            sep as int,
            TWEAK_CAP as nat,
        );
    }
    while fuel > 0 && gap <= config.similarity
        invariant
            palette@.len() == 16,
            config.wf(),
            index < 16,
            reference == config.template_colors@[index as int],
            gap == config_distance(config, current, reference),
            sep == separation(palette@, config, current),
            best_sep >= sep,
            separation(palette@, config, generated(palette@, config, *accent, index as int))
                >= separation(palette@, config, start_point(config, *accent, index as int)),
            generated(palette@, config, *accent, index as int) == search(
                palette@,
                config,
                index as int,
                current,
                best,
                best_sep as int,
                fuel as nat,
            ),
        decreases fuel,
    {
        let mut next = current;
        tweak_color(&mut next, config.hue_tweak, config.saturation_tweak, config.light_tweak);
        if next.0 == current.0 && next.1 == current.1 && next.2 == current.2 {
            proof {
                lemma_search_still(
                    palette@,
                    config,
                    index as int,
                    current,
                    best,
                    best_sep as int,
                    fuel as nat,
                );
                lemma_separation(palette@, config, best, 8);
            }
            return best;
        }
        let next_sep = separation_of(palette, config, &next);
        if next_sep > best_sep {
            best = next;
            best_sep = next_sep;
        }
        current = next;
        sep = next_sep;
        gap = compare_colors(
            &current,
            &reference,
            config.hue_compare,
            config.chroma_compare,
            config.light_compare,
        );
        fuel = fuel - 1;
    }
    proof {
        lemma_separation(palette@, config, best, 8);
    }
    best
}

} // verus!
