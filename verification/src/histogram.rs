//! From pixels to weighted candidates: pixels that agree in the leading
//! bits of each channel share a bucket, and each bucket gives one candidate,
//! the mean color of its pixels with their number as its count. A hash map
//! leads from the number of a bucket to the bucket.

use vstd::prelude::*;
use std::collections::HashMap;
use crate::Rgb;
use crate::quantize::{CandidateQueue, ColorCount, ranking};

verus! {

/// The weight of the bit at place `i` of a channel, counted from the
/// leading bit: 128, 64, and so on.
pub open spec fn bit_weight(i: int) -> int
    decreases i,
{
    if i <= 0 {
        128
    } else {
        bit_weight(i - 1) / 2
    }
}

/// The bit at place `i` of a channel, counted from the leading bit.
pub open spec fn bit_at(c: u8, i: int) -> int {
    (c as int / bit_weight(i)) % 2
}

/// The octal digit that the bits at place `i` of the three channels make:
/// red, green, blue.
pub open spec fn hash_digit(rgb: Rgb, i: int) -> int {
    4 * bit_at(rgb.0, i) + 2 * bit_at(rgb.1, i) + bit_at(rgb.2, i)
}

/// The number of the bucket of a pixel: the octal number whose digits are
/// made of the `depth` leading bits of the channels, leading bits first.
pub open spec fn pixel_hash(rgb: Rgb, depth: int) -> int
    decreases depth,
{
    if depth <= 0 {
        0
    } else {
        8 * pixel_hash(rgb, depth - 1) + hash_digit(rgb, depth - 1)
    }
}

/// What a bucket holds of the pixels: how many of them, and the sums of
/// their red, green and blue.
pub open spec fn tally(pixels: Seq<Rgb>, depth: int, key: int) -> (int, int, int, int)
    decreases pixels.len(),
{
    if pixels.len() == 0 {
        (0, 0, 0, 0)
    } else {
        let before = tally(pixels.drop_last(), depth, key);
        let p = pixels.last();
        if pixel_hash(p, depth) == key {
            (before.0 + 1, before.1 + p.0, before.2 + p.1, before.3 + p.2)
        } else {
            before
        }
    }
}

/// The candidate of a bucket: the number of its pixels, and the mean of
/// each channel, rounded down.
pub open spec fn candidate_of(t: (int, int, int, int)) -> ColorCount {
    ColorCount {
        count: t.0 as usize,
        rgb: ((t.1 / t.0) as u8, (t.2 / t.0) as u8, (t.3 / t.0) as u8),
    }
}

/// The numbers of the buckets that hold a pixel, in the order in which
/// the pixels come to them first.
pub open spec fn bucket_keys(pixels: Seq<Rgb>, depth: int) -> Seq<int>
    decreases pixels.len(),
{
    if pixels.len() == 0 {
        Seq::empty()
    } else {
        let before = bucket_keys(pixels.drop_last(), depth);
        let key = pixel_hash(pixels.last(), depth);
        if before.contains(key) {
            before
        } else {
            before.push(key)
        }
    }
}

/// The candidates of the buckets that hold a pixel, in the order of
/// `bucket_keys`.
pub open spec fn histogram(pixels: Seq<Rgb>, depth: int) -> Seq<ColorCount> {
    Seq::new(
        bucket_keys(pixels, depth).len(),
        |a: int| candidate_of(tally(pixels, depth, bucket_keys(pixels, depth)[a])),
    )
}

/// `keys` are the numbers of the buckets that hold a pixel, each once.
pub open spec fn occupied(pixels: Seq<Rgb>, depth: int, keys: Seq<int>) -> bool {
    &&& forall|a: int, b: int| 0 <= a < b < keys.len() ==> keys[a] != keys[b]
    &&& forall|a: int| 0 <= a < keys.len() ==> tally(pixels, depth, #[trigger] keys[a]).0 > 0
    &&& forall|k: int| (#[trigger] tally(pixels, depth, k)).0 > 0 ==> keys.contains(k)
}

/// Every bucket that holds a pixel has a candidate in the histogram, and
/// only one; no other bucket has.
pub proof fn lemma_bucket_keys(pixels: Seq<Rgb>, depth: int)
    ensures
        occupied(pixels, depth, bucket_keys(pixels, depth)),
        histogram(pixels, depth).len() == bucket_keys(pixels, depth).len(),
    decreases pixels.len(),
{
    if pixels.len() > 0 {
        let front = pixels.drop_last();
        lemma_bucket_keys(front, depth);
        let before = bucket_keys(front, depth);
        let key = pixel_hash(pixels.last(), depth);
        let keys = bucket_keys(pixels, depth);
        assert forall|a: int| 0 <= a < keys.len() implies tally(pixels, depth, #[trigger] keys[a]).0
            > 0 by {
            lemma_tally_range(front, depth, keys[a]);
            if a < before.len() {
                assert(tally(front, depth, before[a]).0 > 0);
            }
        }
        assert forall|k: int| (#[trigger] tally(pixels, depth, k)).0 > 0 implies keys.contains(
            k,
        ) by {
            if k == key {
                if !before.contains(key) {
                    assert(keys[before.len() as int] == key);
                }
            } else {
                assert(tally(front, depth, k).0 > 0);
                assert(before.contains(k));
                let a = choose|a: int| 0 <= a < before.len() && before[a] == k;
                assert(keys[a] == k);
            }
        }
        assert forall|a: int, b: int| 0 <= a < b < keys.len() implies keys[a] != keys[b] by {
            if b < before.len() {
                assert(before[a] != before[b]);
            } else {
                assert(before[a] == keys[a]);
            }
        }
    }
}

/// The weights of the eight bits are powers of two from 128 down to 1.
pub proof fn lemma_bit_weight(i: int)
    requires
        0 <= i <= 7,
    ensures
        1 <= bit_weight(i) <= 128,
        i < 7 ==> bit_weight(i) >= 2,
    decreases i,
{
    reveal_with_fuel(bit_weight, 9);
}

/// The number of a bucket is below 8 to the power of the depth.
pub proof fn lemma_pixel_hash_range(rgb: Rgb, depth: int)
    requires
        0 <= depth <= 8,
    ensures
        0 <= pixel_hash(rgb, depth) < crate::fixed::ipow(8, depth as nat),
    decreases depth,
{
    reveal_with_fuel(crate::fixed::ipow, 2);
    if depth > 0 {
        lemma_pixel_hash_range(rgb, depth - 1);
        lemma_bit_weight(depth - 1);
    }
}

/// A bucket holds no more pixels than there are, and no channel sums to
/// more than 255 for each of its pixels.
pub proof fn lemma_tally_range(pixels: Seq<Rgb>, depth: int, key: int)
    ensures
        0 <= tally(pixels, depth, key).0 <= pixels.len(),
        0 <= tally(pixels, depth, key).1 <= 255 * tally(pixels, depth, key).0,
        0 <= tally(pixels, depth, key).2 <= 255 * tally(pixels, depth, key).0,
        0 <= tally(pixels, depth, key).3 <= 255 * tally(pixels, depth, key).0,
    decreases pixels.len(),
{
    if pixels.len() > 0 {
        lemma_tally_range(pixels.drop_last(), depth, key);
    }
}

/// The number of the bucket of a pixel.
pub fn get_pixel_hash(rgb: &Rgb, depth: u8) -> (hash: u32)
    requires
        depth <= 8,
    ensures
        hash == pixel_hash(*rgb, depth as int),
{
    let mut hash: u32 = 0;
    let mut weight: u8 = 128;
    let mut i: u8 = 0;
    while i < depth
        invariant
            i <= depth <= 8,
            hash == pixel_hash(*rgb, i as int),
            i < 8 ==> weight == bit_weight(i as int),
            hash < crate::fixed::ipow(8, i as nat),
            crate::fixed::ipow(8, i as nat) <= 16_777_216,
        decreases depth - i,
    {
        proof {
            lemma_bit_weight(i as int);
            lemma_pixel_hash_range(*rgb, i + 1);
            reveal_with_fuel(crate::fixed::ipow, 2);
            crate::fixed::lemma_ipow_grows(8, (i + 1) as nat, 8);
            lemma_eight_to_eight();
        }
        let digit = 4 * ((rgb.0 / weight) % 2) + 2 * ((rgb.1 / weight) % 2) + (rgb.2 / weight) % 2;
        hash = 8 * hash + digit as u32;
        weight = weight / 2;
        i = i + 1;
    }
    hash
}

/// 8 to the power 8.
proof fn lemma_eight_to_eight()
    ensures
        crate::fixed::ipow(8, 8) == 16_777_216,
{
    reveal_with_fuel(crate::fixed::ipow, 9);
}

/// A bucket while the pixels are counted.
struct Bucket {
    key: u32,
    count: usize,
    red: u128,
    green: u128,
    blue: u128,
}

impl Bucket {
    spec fn holds(&self, pixels: Seq<Rgb>, depth: int) -> bool {
        let t = tally(pixels, depth, self.key as int);
        t.0 > 0 && self.count == t.0 && self.red == t.1 && self.green == t.2 && self.blue == t.3
    }
}

/// The numbers of the buckets.
spec fn keys_of(buckets: Seq<Bucket>) -> Seq<int> {
    Seq::new(buckets.len(), |a: int| buckets[a].key as int)
}

/// The buckets are those that hold a pixel, in the order of `bucket_keys`,
/// and each holds what the pixels give it.
spec fn counted(buckets: Seq<Bucket>, pixels: Seq<Rgb>, depth: int) -> bool {
    &&& keys_of(buckets) == bucket_keys(pixels, depth)
    &&& occupied(pixels, depth, keys_of(buckets))
    &&& forall|a: int| 0 <= a < buckets.len() ==> (#[trigger] buckets[a]).holds(pixels, depth)
}

/// The map leads from the number of each bucket to its place, and to
/// nothing else.
spec fn indexed(places: Map<u32, usize>, buckets: Seq<Bucket>) -> bool {
    &&& forall|a: int|
        0 <= a < buckets.len() ==> places.contains_key((#[trigger] buckets[a]).key)
            && places[buckets[a].key] == a
    &&& forall|k: u32| #[trigger]
        places.contains_key(k) ==> places[k] < buckets.len() && buckets[places[k] as int].key == k
}

/// Buckets the pixels by the `depth` leading bits of each channel and
/// gives the queue of the candidates of the buckets.
pub fn quantize(pixels: &Vec<Rgb>, depth: u8) -> (queue: CandidateQueue)
    requires
        depth <= 8,
    ensures
        queue@ == ranking(histogram(pixels@, depth as int)),
{
    broadcast use vstd::std_specs::hash::group_hash_axioms;

    let mut places: HashMap<u32, usize> = HashMap::new();
    let mut buckets: Vec<Bucket> = Vec::new();
    let mut i: usize = 0;
    proof {
        assert(keys_of(buckets@) =~= Seq::<int>::empty());
        assert(pixels@.take(0) =~= Seq::<Rgb>::empty());
        assert forall|k: int| (#[trigger] tally(pixels@.take(0), depth as int, k)).0
            > 0 implies keys_of(buckets@).contains(k) by {}
    }
    while i < pixels.len()
        invariant
            i <= pixels.len(),
            depth <= 8,
            buckets@.len() <= i,
            counted(buckets@, pixels@.take(i as int), depth as int),
            indexed(places@, buckets@),
        decreases pixels.len() - i,
    {
        let p = pixels[i];
        let key = get_pixel_hash(&p, depth);
        let ghost before = pixels@.take(i as int);
        let ghost now = pixels@.take(i + 1);
        let ghost old_buckets = buckets@;
        let ghost old_places = places@;
        proof {
            assert(now.drop_last() =~= before);
            assert(now.last() == p);
            lemma_tally_range(before, depth as int, key as int);
        }
        let found = match places.get(&key) {
            Some(place) => Some(*place),
            None => None,
        };
        match found {
            Some(place) => {
                proof {
                    assert(old_buckets[place as int].holds(before, depth as int));
                    assert(keys_of(old_buckets)[place as int] == key as int);
                    assert(bucket_keys(now, depth as int) == bucket_keys(before, depth as int));
                }
                let b = &buckets[place];
                let updated = Bucket {
                    key,
                    count: b.count + 1,
                    red: b.red + p.0 as u128,
                    green: b.green + p.1 as u128,
                    blue: b.blue + p.2 as u128,
                };
                buckets[place] = updated;
                proof {
                    assert(keys_of(buckets@) =~= keys_of(old_buckets));
                    lemma_counted_step(
                        old_buckets,
                        buckets@,
                        before,
                        now,
                        depth as int,
                        place as int,
                    );
                    assert(indexed(places@, buckets@)) by {
                        assert forall|a: int| 0 <= a < buckets@.len() implies places@.contains_key(
                            (#[trigger] buckets@[a]).key,
                        ) && places@[buckets@[a].key] == a by {
                            assert(old_buckets[a].key == buckets@[a].key);
                        }
                    }
                }
            },
            None => {
                proof {
                    if tally(before, depth as int, key as int).0 > 0 {
                        let keys = keys_of(old_buckets);
                        assert(occupied(before, depth as int, keys));
                        assert(keys.contains(key as int));
                        let a = choose|a: int| 0 <= a < keys.len() && keys[a] == key as int;
                        assert(old_buckets[a].key == key);
                        assert(false);
                    }
                    if keys_of(old_buckets).contains(key as int) {
                        let a = choose|a: int|
                            0 <= a < old_buckets.len() && keys_of(old_buckets)[a] == key as int;
                        assert(old_buckets[a].key == key);
                        assert(false);
                    }
                    assert(bucket_keys(now, depth as int) == bucket_keys(
                        before,
                        depth as int,
                    ).push(key as int));
                }
                let place = buckets.len();
                buckets.push(
                    Bucket { key, count: 1, red: p.0 as u128, green: p.1 as u128, blue: p.2 as u128 },
                );
                places.insert(key, place);
                proof {
                    assert(keys_of(buckets@) =~= keys_of(old_buckets).push(key as int));
                    assert(buckets@ =~= old_buckets.push(buckets@[place as int]));
                    lemma_counted_push(old_buckets, buckets@, before, now, depth as int);
                    assert(indexed(places@, buckets@)) by {
                        assert forall|a: int| 0 <= a < buckets@.len() implies places@.contains_key(
                            (#[trigger] buckets@[a]).key,
                        ) && places@[buckets@[a].key] == a by {
                            if a < old_buckets.len() {
                                assert(old_buckets[a].key == buckets@[a].key);
                                assert(old_places.contains_key(old_buckets[a].key));
                            }
                        }
                        assert forall|k: u32| #[trigger] places@.contains_key(k) implies places@[k]
                            < buckets@.len() && buckets@[places@[k] as int].key == k by {
                            if k != key {
                                assert(old_places.contains_key(k));
                                assert(old_buckets[old_places[k] as int].key == k);
                            }
                        }
                    }
                }
            },
        }
        i = i + 1;
    }
    proof {
        assert(pixels@.take(pixels.len() as int) =~= pixels@);
    }
    let mut entries: Vec<ColorCount> = Vec::new();
    let mut k: usize = 0;
    while k < buckets.len()
        invariant
            k <= buckets.len(),
            counted(buckets@, pixels@, depth as int),
            entries@.len() == k,
            forall|a: int|
                0 <= a < k ==> #[trigger] entries@[a] == candidate_of(
                    tally(pixels@, depth as int, buckets@[a].key as int),
                ),
        decreases buckets.len() - k,
    {
        let b = &buckets[k];
        proof {
            assert(b.holds(pixels@, depth as int));
            lemma_tally_range(pixels@, depth as int, b.key as int);
            let t = tally(pixels@, depth as int, b.key as int);
            assert(t.1 / t.0 <= 255 && t.2 / t.0 <= 255 && t.3 / t.0 <= 255) by (nonlinear_arith)
                requires
                    t.0 > 0,
                    0 <= t.1 <= 255 * t.0,
                    0 <= t.2 <= 255 * t.0,
                    0 <= t.3 <= 255 * t.0,
            ;
        }
        let n = b.count as u128;
        entries.push(
            ColorCount {
                count: b.count,
                rgb: ((b.red / n) as u8, (b.green / n) as u8, (b.blue / n) as u8),
            },
        );
        k = k + 1;
    }
    proof {
        let keys = keys_of(buckets@);
        assert forall|a: int| 0 <= a < keys.len() implies #[trigger] entries@[a] == candidate_of(
            tally(pixels@, depth as int, keys[a]),
        ) by {}
        assert(entries@ =~= histogram(pixels@, depth as int));
    }
    CandidateQueue::from_vec(&entries)
}

/// Counting a pixel into the bucket that it belongs to keeps the buckets
/// counted.
proof fn lemma_counted_step(
    old_buckets: Seq<Bucket>,
    buckets: Seq<Bucket>,
    before: Seq<Rgb>,
    now: Seq<Rgb>,
    depth: int,
    place: int,
)
    requires
        now.len() > 0,
        now.drop_last() == before,
        counted(old_buckets, before, depth),
        0 <= place < old_buckets.len(),
        buckets.len() == old_buckets.len(),
        keys_of(buckets) == keys_of(old_buckets),
        old_buckets[place].key as int == pixel_hash(now.last(), depth),
        buckets[place].holds(now, depth),
        forall|a: int| 0 <= a < buckets.len() && a != place ==> buckets[a] == old_buckets[a],
        keys_of(buckets) == bucket_keys(now, depth),
    ensures
        counted(buckets, now, depth),
{
    let keys = keys_of(buckets);
    assert forall|a: int| 0 <= a < buckets.len() implies (#[trigger] buckets[a]).holds(
        now,
        depth,
    ) by {
        if a != place {
            assert(old_buckets[a].holds(before, depth));
            if a < place {
                assert(keys[a] != keys[place]);
            } else {
                assert(keys[place] != keys[a]);
            }
        }
    }
    assert forall|a: int| 0 <= a < keys.len() implies tally(now, depth, #[trigger] keys[a]).0
        > 0 by {
        assert(buckets[a].holds(now, depth));
    }
    assert forall|k: int| (#[trigger] tally(now, depth, k)).0 > 0 implies keys.contains(k) by {
        if k == pixel_hash(now.last(), depth) {
            assert(keys[place] == k);
        } else {
            assert(tally(before, depth, k).0 > 0);
        }
    }
}

/// Opening a bucket for a pixel that belongs to none keeps the buckets
/// counted.
proof fn lemma_counted_push(
    old_buckets: Seq<Bucket>,
    buckets: Seq<Bucket>,
    before: Seq<Rgb>,
    now: Seq<Rgb>,
    depth: int,
)
    requires
        now.len() > 0,
        now.drop_last() == before,
        counted(old_buckets, before, depth),
        buckets == old_buckets.push(buckets.last()),
        buckets.len() == old_buckets.len() + 1,
        buckets.last().key as int == pixel_hash(now.last(), depth),
        buckets.last().holds(now, depth),
        tally(before, depth, pixel_hash(now.last(), depth)).0 == 0,
        keys_of(buckets) == bucket_keys(now, depth),
    ensures
        counted(buckets, now, depth),
{
    let keys = keys_of(buckets);
    let old_keys = keys_of(old_buckets);
    let last = old_buckets.len() as int;
    assert forall|a: int| 0 <= a < last implies keys[a] != keys[last] by {
        assert(tally(before, depth, old_keys[a]).0 > 0);
        assert(keys[a] == old_keys[a]);
    }
    assert forall|a: int| 0 <= a < buckets.len() implies (#[trigger] buckets[a]).holds(
        now,
        depth,
    ) by {
        if a < last {
            assert(old_buckets[a].holds(before, depth));
            assert(keys[a] != keys[last]);
        }
    }
    assert forall|a: int, b: int| 0 <= a < b < keys.len() implies keys[a] != keys[b] by {
        if b < last {
            assert(old_keys[a] != old_keys[b]);
        }
    }
    assert forall|a: int| 0 <= a < keys.len() implies tally(now, depth, #[trigger] keys[a]).0
        > 0 by {
        assert(buckets[a].holds(now, depth));
    }
    assert forall|k: int| (#[trigger] tally(now, depth, k)).0 > 0 implies keys.contains(k) by {
        if k == pixel_hash(now.last(), depth) {
            assert(keys[last] == k);
        } else {
            assert(tally(before, depth, k).0 > 0);
            assert(old_keys.contains(k));
            let a = choose|a: int| 0 <= a < old_keys.len() && old_keys[a] == k;
            assert(keys[a] == k);
        }
    }
}

} // verus!
