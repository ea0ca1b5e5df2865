//! Random sampling of pixels, to build a histogram from a part of a large
//! image.

use vstd::prelude::*;

verus! {

/// The threshold at and above which every item is kept: 2^32.
pub const ALWAYS: u64 = 0x1_0000_0000;

/// Whether an item is kept when the generator drew `draw`: an item is kept
/// with probability `threshold / 2^32`.
pub open spec fn keeps(threshold: u64, draw: u32) -> bool {
    (draw as u64) < threshold
}

/// The items that are kept for the given draws, in their order. Item `i` is
/// decided by draw `i`.
pub open spec fn sampled<T>(items: Seq<T>, threshold: u64, draws: Seq<u32>) -> Seq<T>
    decreases items.len(),
{
    if items.len() == 0 {
        Seq::empty()
    } else if keeps(threshold, draws[items.len() - 1]) {
        sampled(items.drop_last(), threshold, draws).push(items.last())
    } else {
        sampled(items.drop_last(), threshold, draws)
    }
}

/// Draws 32 bits with `rand::random`, from the generator of the current
/// thread. Nothing is claimed of the value.
#[verifier::external_body]
fn draw() -> (r: u32) {
    rand::random::<u32>()
}

/// Decides whether an item is kept when the generator drew `draw`.
pub fn keep(threshold: u64, draw: u32) -> (k: bool)
    ensures
        k == keeps(threshold, draw),
{
    (draw as u64) < threshold
}

/// Decides at random whether to keep an item: it is kept with probability
/// `threshold / 2^32`. With a threshold of 0 it is never kept, with one of
/// 2^32 or more always.
pub fn sample(threshold: u64) -> (k: bool)
    ensures
        threshold == 0 ==> !k,
        threshold >= ALWAYS ==> k,
{
    keep(threshold, draw())
}

/// The items that are kept for the given draws.
pub fn sample_with<T: Copy>(items: &Vec<T>, threshold: u64, draws: &Vec<u32>) -> (out: Vec<T>)
    requires
        draws@.len() >= items@.len(),
    ensures
        out@ == sampled(items@, threshold, draws@),
{
    let mut out: Vec<T> = Vec::new();
    let mut i: usize = 0;
    while i < items.len()
        invariant
            i <= items@.len() <= draws@.len(),
            out@ == sampled(items@.take(i as int), threshold, draws@),
        decreases items@.len() - i,
    {
        assert(items@.take(i + 1).drop_last() =~= items@.take(i as int));
        if keep(threshold, draws[i]) {
            out.push(items[i]);
        }
        i += 1;
    }
    assert(items@.take(i as int) =~= items@);
    out
}

/// A random sample of the items: each is kept with probability
/// `threshold / 2^32`, independently of the others. Whatever is drawn, the
/// sample is what `sampled` keeps for some sequence of draws.
pub fn random_sample<T: Copy>(items: &Vec<T>, threshold: u64) -> (out: Vec<T>)
    ensures
        exists|draws: Seq<u32>|
            draws.len() == items@.len() && out@ == sampled(items@, threshold, draws),
        threshold == 0 ==> out@.len() == 0,
        threshold >= ALWAYS ==> out@ == items@,
{
    let mut draws: Vec<u32> = Vec::with_capacity(items.len());
    let mut i: usize = 0;
    while i < items.len()
        invariant
            i <= items@.len(),
            draws@.len() == i,
        decreases items@.len() - i,
    {
        draws.push(draw());
        i += 1;
    }
    let out = sample_with(items, threshold, &draws);
    proof {
        lemma_sampled_extremes(items@, threshold, draws@);
    }
    out
}

/// With a threshold of 0 nothing is kept, and with one of 2^32 or more
/// everything.
pub proof fn lemma_sampled_extremes<T>(items: Seq<T>, threshold: u64, draws: Seq<u32>)
    ensures
        threshold == 0 ==> sampled(items, threshold, draws).len() == 0,
        threshold >= ALWAYS ==> sampled(items, threshold, draws) == items,
    decreases items.len(),
{
    if items.len() > 0 {
        lemma_sampled_extremes(items.drop_last(), threshold, draws);
        if threshold >= ALWAYS {
            assert(items.drop_last().push(items.last()) =~= items);
        }
    }
}

} // verus!
