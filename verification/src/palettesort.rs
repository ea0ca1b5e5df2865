//! Sorting the palette so that colors that are neighbors in the image are
//! neighbors in the palette as well.

use vstd::prelude::*;
use crate::color::Color;

verus! {

/// How often the palette index `index` occurs in the image.
pub open spec fn occurrences(image: Seq<u8>, index: int) -> nat
    decreases image.len(),
{
    if image.len() == 0 {
        0
    } else {
        occurrences(image.drop_last(), index) + if image.last() == index {
            1nat
        } else {
            0nat
        }
    }
}

/// The index before position `k` of the image; before the first pixel it is 0.
pub open spec fn previous(image: Seq<u8>, k: int) -> int {
    if k <= 0 {
        0
    } else {
        image[k - 1] as int
    }
}

/// How often the indices `i` and `j` stand next to each other in the image,
/// counted in both directions: a pair of consecutive pixels `(i, j)` counts for
/// `(i, j)` and for `(j, i)`.
pub open spec fn adjacency(image: Seq<u8>, i: int, j: int) -> nat
    decreases image.len(),
{
    if image.len() == 0 {
        0
    } else {
        let before = previous(image, image.len() - 1);
        let here = image.last() as int;
        adjacency(image.drop_last(), i, j) + if before == i && here == j {
            1nat
        } else {
            0nat
        } + if here == i && before == j {
            1nat
        } else {
            0nat
        }
    }
}

/// `m` lists each of the indices below `n` once.
pub open spec fn is_permutation(m: Seq<usize>, n: int) -> bool {
    &&& m.len() == n
    &&& forall|a: int| 0 <= a < n ==> 0 <= #[trigger] m[a] < n
    &&& forall|a: int, b: int| 0 <= a < b < n ==> m[a] != m[b]
    &&& forall|i: usize| i < n ==> #[trigger] m.contains(i)
}

/// The index `picked` goes before `other` at the start of the order: it
/// occurs more often, or as often and is the lower index.
pub open spec fn more_frequent(image: Seq<u8>, picked: int, other: int) -> bool {
    occurrences(image, other) < occurrences(image, picked) || (occurrences(image, other)
        == occurrences(image, picked) && picked < other)
}

/// The index `picked` goes before `other` after `prev`: it is more often
/// adjacent to `prev`, or as often and is the lower index.
pub open spec fn closer(image: Seq<u8>, prev: int, picked: int, other: int) -> bool {
    adjacency(image, prev, other) < adjacency(image, prev, picked) || (adjacency(
        image,
        prev,
        other,
    ) == adjacency(image, prev, picked) && picked < other)
}

/// `m` is the order in which the palette is sorted: it starts with the most
/// frequent index, and each further index is, among those not yet listed, the
/// one most often adjacent to the index before it. Ties go to the lowest index.
pub open spec fn is_palette_order(m: Seq<usize>, image: Seq<u8>, n: int) -> bool {
    &&& is_permutation(m, n)
    &&& forall|b: int| 0 < b < n ==> more_frequent(image, m[0] as int, #[trigger] m[b] as int)
    &&& forall|t: int, b: int|
        1 <= t < b < n ==> closer(
            image,
            m[t - 1] as int,
            #[trigger] m[t] as int,
            #[trigger] m[b] as int,
        )
}

/// An index that the image does not hold occurs in it zero times, and an
/// image of one index holds it as often as it has pixels.
pub proof fn lemma_occurrences_constant(image: Seq<u8>, i: int, j: int)
    requires
        forall|k: int| 0 <= k < image.len() ==> #[trigger] image[k] == i,
    ensures
        occurrences(image, i) == image.len(),
        j != i ==> occurrences(image, j) == 0,
    decreases image.len(),
{
    if image.len() > 0 {
        lemma_occurrences_constant(image.drop_last(), i, j);
    }
}

/// An image of one color stays an image of one color: where every pixel has
/// the same palette index, that index comes first in the palette order, and
/// every pixel of the rewritten image is 0.
pub proof fn lemma_constant_image(
    m: Seq<usize>,
    image: Seq<u8>,
    n: int,
    i: u8,
    sorted_image: Seq<u8>,
)
    requires
        is_palette_order(m, image, n),
        image.len() > 0,
        i < n,
        forall|k: int| 0 <= k < image.len() ==> #[trigger] image[k] == i,
        sorted_image.len() == image.len(),
        forall|k: int|
            0 <= k < image.len() ==> (#[trigger] sorted_image[k] as int) < n
                && m[sorted_image[k] as int] == image[k],
    ensures
        m[0] == i,
        forall|k: int| 0 <= k < image.len() ==> #[trigger] sorted_image[k] == 0,
{
    assert(m.contains(i as usize));
    let b = choose|b: int| 0 <= b < m.len() && m[b] == i as usize;
    if b > 0 {
        lemma_occurrences_constant(image, i as int, m[0] as int);
        assert(more_frequent(image, m[0] as int, m[b] as int));
    }
    assert forall|k: int| 0 <= k < image.len() implies #[trigger] sorted_image[k] == 0 by {
        let r = sorted_image[k] as int;
        assert(m[r] == i);
        if r > 0 {
            assert(m[0] != m[r]);
        }
    }
}

/// Counts how often each palette index occurs in the image.
fn count_indices(image: &Vec<u8>, n: usize) -> (counts: Vec<usize>)
    requires
        n <= 256,
        forall|k: int| 0 <= k < image@.len() ==> (#[trigger] image@[k] as int) < n,
    ensures
        counts@.len() == n,
        forall|i: int| 0 <= i < n ==> #[trigger] counts@[i] == occurrences(image@, i),
{
    let mut counts: Vec<usize> = Vec::with_capacity(n);
    let mut i: usize = 0;
    while i < n
        invariant
            i <= n,
            counts@.len() == i,
            forall|j: int| 0 <= j < i ==> #[trigger] counts@[j] == 0,
        decreases n - i,
    {
        counts.push(0);
        i += 1;
    }
    let mut k: usize = 0;
    while k < image.len()
        invariant
            k <= image@.len(),
            n <= 256,
            counts@.len() == n,
            forall|k: int| 0 <= k < image@.len() ==> (#[trigger] image@[k] as int) < n,
            forall|i: int|
                0 <= i < n ==> #[trigger] counts@[i] == occurrences(image@.take(k as int), i),
            forall|i: int| 0 <= i < n ==> #[trigger] counts@[i] <= k,
        decreases image@.len() - k,
    {
        let index = image[k] as usize;
        assert(image@.take(k + 1).drop_last() =~= image@.take(k as int));
        let c = counts[index];
        counts.set(index, c + 1);
        k += 1;
    }
    assert(image@.take(k as int) =~= image@);
    counts
}

/// Counts, for each pair of palette indices, how often they are adjacent in
/// the image. The count of the pair `(i, j)` is at position `i * 256 + j`.
fn count_neighbors(image: &Vec<u8>) -> (neighbors: Vec<u128>)
    ensures
        neighbors@.len() == 65536,
        forall|i: int, j: int|
            0 <= i < 256 && 0 <= j < 256 ==> neighbors@[i * 256 + j] == #[trigger] adjacency(
                image@,
                i,
                j,
            ),
{
    let mut neighbors: Vec<u128> = Vec::with_capacity(65536);
    let mut c: usize = 0;
    while c < 65536
        invariant
            c <= 65536,
            neighbors@.len() == c,
            forall|a: int| 0 <= a < c ==> #[trigger] neighbors@[a] == 0,
        decreases 65536 - c,
    {
        neighbors.push(0);
        c += 1;
    }
    let mut last_index: usize = 0;
    let mut k: usize = 0;
    while k < image.len()
        invariant
            k <= image@.len(),
            neighbors@.len() == 65536,
            last_index == previous(image@, k as int),
            last_index < 256,
            forall|i: int, j: int|
                0 <= i < 256 && 0 <= j < 256 ==> neighbors@[i * 256 + j] == #[trigger] adjacency(
                    image@.take(k as int),
                    i,
                    j,
                ),
            forall|a: int| 0 <= a < 65536 ==> #[trigger] neighbors@[a] <= 2 * k,
        decreases image@.len() - k,
    {
        let index = image[k] as usize;
        let ghost before = neighbors@;
        proof {
            assert(image@.take(k + 1).drop_last() =~= image@.take(k as int));
            assert(previous(image@.take(k + 1), k as int) == last_index);
        }
        let forward = last_index * 256 + index;
        let f = neighbors[forward];
        neighbors.set(forward, f + 1);
        let backward = index * 256 + last_index;
        let b = neighbors[backward];
        neighbors.set(backward, b + 1);
        proof {
            assert forall|i: int, j: int| 0 <= i < 256 && 0 <= j < 256 implies neighbors@[i * 256
                + j] == #[trigger] adjacency(image@.take(k + 1), i, j) by {
                assert(before[i * 256 + j] == adjacency(image@.take(k as int), i, j));
                assert((i * 256 + j == forward) <==> (i == last_index && j == index));
                assert((i * 256 + j == backward) <==> (i == index && j == last_index));
            }
        }
        last_index = index;
        k += 1;
    }
    assert(image@.take(k as int) =~= image@);
    neighbors
}

/// The position of the first largest value among `candidates`, scored by
/// `scores[base + candidate]`.
fn pick_best(candidates: &Vec<usize>, scores: &Vec<u128>, base: usize) -> (best: usize)
    requires
        candidates@.len() > 0,
        scores@.len() == 65536,
        forall|q: int| 0 <= q < candidates@.len() ==> base + #[trigger] candidates@[q] < 65536,
    ensures
        best < candidates@.len(),
        forall|q: int|
            0 <= q < candidates@.len() ==> scores@[base + #[trigger] candidates@[q]]
                <= scores@[base + candidates@[best as int]],
        forall|q: int|
            0 <= q < best ==> scores@[base + #[trigger] candidates@[q]] < scores@[base
                + candidates@[best as int]],
{
    let mut best: usize = 0;
    let mut best_count: u128 = 0;
    let mut p: usize = 0;
    while p < candidates.len()
        invariant
            p <= candidates@.len(),
            candidates@.len() > 0,
            scores@.len() == 65536,
            forall|q: int| 0 <= q < candidates@.len() ==> base + #[trigger] candidates@[q] < 65536,
            p == 0 ==> best == 0 && best_count == 0,
            p > 0 ==> best < p && best_count == scores@[base + candidates@[best as int]],
            forall|q: int| 0 <= q < p ==> scores@[base + #[trigger] candidates@[q]] <= best_count,
            forall|q: int| 0 <= q < best ==> scores@[base + #[trigger] candidates@[q]] < best_count,
        decreases candidates@.len() - p,
    {
        let count = scores[base + candidates[p]];
        if count > best_count {
            best = p;
            best_count = count;
        }
        p += 1;
    }
    best
}

/// Sort neighboring colors in the image to be neighbors in the palette as well.
///
/// Returns the palette in its new order and the image rewritten to it: every
/// pixel still shows the color it showed before.
pub fn sort_palette(palette: &Vec<Color>, image: &Vec<u8>) -> (sorted: (Vec<Color>, Vec<u8>))
    requires
        1 <= palette@.len() <= 256,
        forall|k: int| 0 <= k < image@.len() ==> (#[trigger] image@[k] as int) < palette@.len(),
    ensures
        sorted.0@.len() == palette@.len(),
        sorted.1@.len() == image@.len(),
        forall|k: int|
            0 <= k < image@.len() ==> (#[trigger] sorted.1@[k] as int) < palette@.len()
                && sorted.0@[sorted.1@[k] as int] == palette@[image@[k] as int],
        exists|m: Seq<usize>|
            {
                &&& is_palette_order(m, image@, palette@.len() as int)
                &&& forall|a: int|
                    0 <= a < palette@.len() ==> #[trigger] sorted.0@[a] == palette@[m[a] as int]
                &&& forall|k: int|
                    0 <= k < image@.len() ==> m[#[trigger] sorted.1@[k] as int] == image@[k]
            },
{
    let num_colors = palette.len();
    let counts = count_indices(image, num_colors);
    let neighbors = count_neighbors(image);
    let ghost occ = |j: int| occurrences(image@, j);

    // Start with the most frequent index.
    let mut first: usize = 0;
    let mut first_count: usize = 0;
    let mut index: usize = 0;
    while index < num_colors
        invariant
            index <= num_colors,
            num_colors == counts@.len(),
            num_colors >= 1,
            index == 0 ==> first == 0 && first_count == 0,
            index > 0 ==> first < index && first_count == counts@[first as int],
            forall|q: int| 0 <= q < index ==> #[trigger] counts@[q] <= first_count,
            forall|q: int| 0 <= q < first ==> #[trigger] counts@[q] < first_count,
        decreases num_colors - index,
    {
        let count = counts[index];
        if count > first_count {
            first = index;
            first_count = count;
        }
        index += 1;
    }
    let mut mapping: Vec<usize> = Vec::with_capacity(num_colors);
    mapping.push(first);
    let mut available: Vec<usize> = Vec::with_capacity(num_colors);
    let mut i: usize = 0;
    while i < num_colors
        invariant
            i <= num_colors,
            first < num_colors,
            available@.len() == if i <= first {
                i as int
            } else {
                i - 1
            },
            forall|q: int| 0 <= q < available@.len() ==> #[trigger] available@[q] < i,
            forall|q: int| 0 <= q < available@.len() ==> #[trigger] available@[q] != first,
            forall|q: int, r: int|
                0 <= q < r < available@.len() ==> #[trigger] available@[q] < #[trigger] available@[r],
            forall|j: usize| j < i && j != first ==> #[trigger] available@.contains(j),
        decreases num_colors - i,
    {
        if i != first {
            let ghost before = available@;
            available.push(i);
            proof {
                assert forall|j: usize| j < i + 1 && j != first implies #[trigger] available@.contains(
                    j,
                ) by {
                    if j < i {
                        assert(before.contains(j));
                        let q = choose|q: int| 0 <= q < before.len() && before[q] == j;
                        assert(available@[q] == j);
                    } else {
                        assert(available@[before.len() as int] == j);
                    }
                }
            }
        }
        i += 1;
    }
    let mut prev_index = first;
    proof {
        assert(mapping@[0] == first);
        assert forall|j: usize| j < num_colors implies #[trigger] mapping@.contains(j)
            || available@.contains(j) by {
            if j == first {
                assert(mapping@[0] == j);
            }
        }
        assert forall|q: int| 0 <= q < available@.len() implies more_frequent(
            image@,
            mapping@[0] as int,
            #[trigger] available@[q] as int,
        ) by {
            let x = available@[q] as int;
            assert(counts@[x] == occurrences(image@, x));
            assert(counts@[first as int] == occurrences(image@, first as int));
        }
    }
    while available.len() > 0
        invariant
            num_colors == palette@.len(),
            num_colors <= 256,
            neighbors@.len() == 65536,
            forall|i: int, j: int|
                0 <= i < 256 && 0 <= j < 256 ==> neighbors@[i * 256 + j] == #[trigger] adjacency(
                    image@,
                    i,
                    j,
                ),
            forall|i: int| 0 <= i < num_colors ==> #[trigger] counts@[i] == occurrences(image@, i),
            counts@.len() == num_colors,
            mapping@.len() >= 1,
            mapping@.len() + available@.len() == num_colors,
            prev_index == mapping@[mapping@.len() - 1],
            forall|a: int| 0 <= a < mapping@.len() ==> #[trigger] mapping@[a] < num_colors,
            forall|q: int| 0 <= q < available@.len() ==> #[trigger] available@[q] < num_colors,
            forall|a: int, b: int| 0 <= a < b < mapping@.len() ==> mapping@[a] != mapping@[b],
            forall|a: int, q: int|
                0 <= a < mapping@.len() && 0 <= q < available@.len() ==> #[trigger] mapping@[a]
                    != #[trigger] available@[q],
            forall|q: int, r: int|
                0 <= q < r < available@.len() ==> #[trigger] available@[q] < #[trigger] available@[r],
            forall|j: usize|
                j < num_colors ==> #[trigger] mapping@.contains(j) || available@.contains(j),
            forall|b: int|
                0 < b < mapping@.len() ==> more_frequent(
                    image@,
                    mapping@[0] as int,
                    #[trigger] mapping@[b] as int,
                ),
            forall|q: int|
                0 <= q < available@.len() ==> more_frequent(
                    image@,
                    mapping@[0] as int,
                    #[trigger] available@[q] as int,
                ),
            forall|t: int, b: int|
                1 <= t < b < mapping@.len() ==> closer(
                    image@,
                    mapping@[t - 1] as int,
                    #[trigger] mapping@[t] as int,
                    #[trigger] mapping@[b] as int,
                ),
            forall|t: int, q: int|
                1 <= t < mapping@.len() && 0 <= q < available@.len() ==> closer(
                    image@,
                    mapping@[t - 1] as int,
                    #[trigger] mapping@[t] as int,
                    #[trigger] available@[q] as int,
                ),
        decreases available@.len(),
    {
        let at = pick_best(&available, &neighbors, prev_index * 256);
        let ghost old_mapping = mapping@;
        let ghost old_available = available@;
        let best_index = available.remove(at);
        mapping.push(best_index);
        proof {
            let t = old_mapping.len() as int;
            assert forall|q: int| 0 <= q < available@.len() implies closer(
                image@,
                mapping@[t - 1] as int,
                mapping@[t] as int,
                #[trigger] available@[q] as int,
            ) by {
                let r = if q < at {
                    q
                } else {
                    q + 1
                };
                assert(available@[q] == old_available[r]);
                assert(neighbors@[prev_index * 256 + old_available[r]] == adjacency(
                    image@,
                    prev_index as int,
                    old_available[r] as int,
                ));
                assert(neighbors@[prev_index * 256 + best_index] == adjacency(
                    image@,
                    prev_index as int,
                    best_index as int,
                ));
            }
            assert forall|q: int| 0 <= q < available@.len() implies #[trigger] available@[q]
                < num_colors && more_frequent(image@, mapping@[0] as int, available@[q] as int) by {
                let r = if q < at {
                    q
                } else {
                    q + 1
                };
                assert(available@[q] == old_available[r]);
            }
            assert forall|a: int, q: int|
                0 <= a < mapping@.len() && 0 <= q < available@.len() implies #[trigger] mapping@[a]
                != #[trigger] available@[q] by {
                let r = if q < at {
                    q
                } else {
                    q + 1
                };
                assert(available@[q] == old_available[r]);
                if a < t {
                    assert(mapping@[a] == old_mapping[a]);
                }
            }
            assert forall|q: int, r: int| 0 <= q < r < available@.len() implies #[trigger] available@[q]
                < #[trigger] available@[r] by {
                let q0 = if q < at {
                    q
                } else {
                    q + 1
                };
                let r0 = if r < at {
                    r
                } else {
                    r + 1
                };
                assert(available@[q] == old_available[q0]);
                assert(available@[r] == old_available[r0]);
            }
            assert forall|j: usize| j < num_colors implies #[trigger] mapping@.contains(j)
                || available@.contains(j) by {
                assert(old_mapping.contains(j) || old_available.contains(j));
                if old_mapping.contains(j) {
                    let a = choose|a: int| 0 <= a < old_mapping.len() && old_mapping[a] == j;
                    assert(mapping@[a] == j);
                } else {
                    let q = choose|q: int| 0 <= q < old_available.len() && old_available[q] == j;
                    if q == at {
                        assert(mapping@[t] == j);
                    } else {
                        let r = if q < at {
                            q
                        } else {
                            q - 1
                        };
                        assert(available@[r] == j);
                    }
                }
            }
            assert forall|t1: int, q: int|
                1 <= t1 < mapping@.len() && 0 <= q < available@.len() implies closer(image@, mapping@[t1 - 1] as int, #[trigger] mapping@[t1] as int, #[trigger] available@[q] as int) by {
                let r = if q < at {
                    q
                } else {
                    q + 1
                };
                assert(available@[q] == old_available[r]);
                if t1 < t {
                    assert(mapping@[t1] == old_mapping[t1]);
                    assert(mapping@[t1 - 1] == old_mapping[t1 - 1]);
                    assert(closer(
                        image@,
                        old_mapping[t1 - 1] as int,
                        old_mapping[t1] as int,
                        old_available[r] as int,
                    ));
                }
            }
            assert forall|t1: int, b: int| 1 <= t1 < b < mapping@.len() implies closer(
                image@,
                mapping@[t1 - 1] as int,
                #[trigger] mapping@[t1] as int,
                #[trigger] mapping@[b] as int,
            ) by {
                assert(mapping@[t1] == old_mapping[t1]);
                assert(mapping@[t1 - 1] == old_mapping[t1 - 1]);
                if b < t {
                    assert(mapping@[b] == old_mapping[b]);
                } else {
                    assert(mapping@[b] == old_available[at as int]);
                    assert(closer(
                        image@,
                        old_mapping[t1 - 1] as int,
                        old_mapping[t1] as int,
                        old_available[at as int] as int,
                    ));
                }
            }
            assert forall|b: int| 0 < b < mapping@.len() implies more_frequent(
                image@,
                mapping@[0] as int,
                #[trigger] mapping@[b] as int,
            ) by {
                if b < t {
                    assert(mapping@[b] == old_mapping[b]);
                } else {
                    assert(mapping@[b] == old_available[at as int]);
                }
            }
        }
        prev_index = best_index;
    }
    proof {
        assert forall|i: usize| i < num_colors implies #[trigger] mapping@.contains(i) by {
            assert(mapping@.contains(i) || available@.contains(i));
        }
        assert(is_palette_order(mapping@, image@, num_colors as int));
    }

    // Rewrite the palette and the image.
    let mut new_palette: Vec<Color> = Vec::with_capacity(num_colors);
    let mut reverse_mapping: Vec<u8> = Vec::with_capacity(num_colors);
    let mut a: usize = 0;
    while a < num_colors
        invariant
            a <= num_colors,
            num_colors == palette@.len(),
            mapping@.len() == num_colors,
            forall|a: int| 0 <= a < mapping@.len() ==> #[trigger] mapping@[a] < num_colors,
            new_palette@.len() == a,
            reverse_mapping@.len() == a,
            forall|b: int|
                0 <= b < a ==> #[trigger] new_palette@[b] == palette@[mapping@[b] as int],
        decreases num_colors - a,
    {
        new_palette.push(palette[mapping[a]]);
        reverse_mapping.push(0);
        a += 1;
    }
    let mut a: usize = 0;
    while a < num_colors
        invariant
            a <= num_colors,
            num_colors <= 256,
            mapping@.len() == num_colors,
            reverse_mapping@.len() == num_colors,
            forall|a: int| 0 <= a < mapping@.len() ==> #[trigger] mapping@[a] < num_colors,
            forall|a: int, b: int| 0 <= a < b < mapping@.len() ==> mapping@[a] != mapping@[b],
            forall|b: int|
                0 <= b < a ==> #[trigger] reverse_mapping@[mapping@[b] as int] == b,
        decreases num_colors - a,
    {
        let ghost before = reverse_mapping@;
        reverse_mapping.set(mapping[a], a as u8);
        proof {
            assert forall|b: int| 0 <= b < a + 1 implies #[trigger] reverse_mapping@[mapping@[b] as int]
                == b by {
                if b < a {
                    assert(before[mapping@[b] as int] == b);
                }
            }
        }
        a += 1;
    }
    let mut new_image: Vec<u8> = Vec::with_capacity(image.len());
    let mut k: usize = 0;
    while k < image.len()
        invariant
            k <= image@.len(),
            num_colors == palette@.len(),
            mapping@.len() == num_colors,
            reverse_mapping@.len() == num_colors,
            new_palette@.len() == num_colors,
            forall|k: int| 0 <= k < image@.len() ==> (#[trigger] image@[k] as int) < num_colors,
            forall|b: int|
                0 <= b < num_colors ==> #[trigger] new_palette@[b] == palette@[mapping@[b] as int],
            forall|b: int|
                0 <= b < num_colors ==> #[trigger] reverse_mapping@[mapping@[b] as int] == b,
            forall|i: usize| i < num_colors ==> #[trigger] mapping@.contains(i),
            new_image@.len() == k,
            forall|q: int|
                0 <= q < k ==> (#[trigger] new_image@[q] as int) < num_colors
                    && mapping@[new_image@[q] as int] == image@[q],
        decreases image@.len() - k,
    {
        let old_index = image[k] as usize;
        proof {
            assert(mapping@.contains(old_index));
            let a = choose|a: int| 0 <= a < num_colors && mapping@[a] == old_index;
            assert(reverse_mapping@[mapping@[a] as int] == a);
        }
        new_image.push(reverse_mapping[old_index]);
        k += 1;
    }
    (new_palette, new_image)
}

} // verus!
