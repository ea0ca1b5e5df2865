//! The histogram of the colors of the input image.

use vstd::prelude::*;
use std::collections::HashMap;
use crate::color::{Color, Vec4};
use crate::colorspace::ColorSpace;

verus! {

/// A single color in quantization space with the number of times it occurs in
/// the input image data.
#[derive(Copy, Clone, Debug)]
pub struct ColorCount {
    pub color: Vec4,
    pub count: usize,
}

/// How often `color` is counted by the entries.
pub open spec fn count_in(entries: Seq<(Color, usize)>, color: Color) -> nat
    decreases entries.len(),
{
    if entries.len() == 0 {
        0
    } else {
        count_in(entries.drop_last(), color) + if entries.last().0 == color {
            entries.last().1 as nat
        } else {
            0
        }
    }
}

/// The sum of the counts of all entries.
pub open spec fn total_of(entries: Seq<(Color, usize)>) -> nat
    decreases entries.len(),
{
    if entries.len() == 0 {
        0
    } else {
        total_of(entries.drop_last()) + entries.last().1 as nat
    }
}

/// Whether an entry has the color.
pub open spec fn holds(entries: Seq<(Color, usize)>, color: Color) -> bool {
    exists|i: int| 0 <= i < entries.len() && (#[trigger] entries[i]).0 == color
}

/// The position of an entry with the color, where there is one.
pub open spec fn place(entries: Seq<(Color, usize)>, color: Color) -> int {
    choose|i: int| 0 <= i < entries.len() && (#[trigger] entries[i]).0 == color
}

/// The entries after one more pixel has been counted: the count of its color
/// goes up by one, or a new entry is added at the end.
pub open spec fn with_pixel(entries: Seq<(Color, usize)>, pixel: Color) -> Seq<(Color, usize)> {
    if holds(entries, pixel) {
        entries.update(
            place(entries, pixel),
            (pixel, (entries[place(entries, pixel)].1 + 1) as usize),
        )
    } else {
        entries.push((pixel, 1))
    }
}

/// The entries after more pixels have been counted, one after the other.
pub open spec fn with_pixels(entries: Seq<(Color, usize)>, pixels: Seq<Color>) -> Seq<
    (Color, usize),
>
    decreases pixels.len(),
{
    if pixels.len() == 0 {
        entries
    } else {
        with_pixel(with_pixels(entries, pixels.drop_last()), pixels.last())
    }
}

/// Counting the pixels of an image of one color gives one entry: that color,
/// with the number of pixels.
pub proof fn lemma_constant_entries(pixels: Seq<Color>, color: Color)
    requires
        0 < pixels.len() <= usize::MAX,
        forall|k: int| 0 <= k < pixels.len() ==> #[trigger] pixels[k] == color,
    ensures
        with_pixels(Seq::empty(), pixels) == seq![(color, pixels.len() as usize)],
    decreases pixels.len(),
{
    let before = with_pixels(Seq::empty(), pixels.drop_last());
    if pixels.len() == 1 {
        assert(pixels.drop_last().len() == 0);
        assert(before == Seq::<(Color, usize)>::empty());
        assert(!holds(before, color));
        assert(Seq::<(Color, usize)>::empty().push((color, 1usize)) =~= seq![(color, 1usize)]);
    } else {
        lemma_constant_entries(pixels.drop_last(), color);
        assert(before[0].0 == color);
        assert(holds(before, color));
        assert(place(before, color) == 0);
        assert(before.update(0, (color, pixels.len() as usize)) =~= seq![
            (color, pixels.len() as usize),
        ]);
    }
}

/// Raising the count of entry `i` by one raises the count of its color and the
/// total by one, and leaves the other colors alone.
proof fn lemma_increment(entries: Seq<(Color, usize)>, i: int, color: Color)
    requires
        0 <= i < entries.len(),
        entries[i].1 < usize::MAX,
    ensures
        total_of(entries.update(i, (entries[i].0, (entries[i].1 + 1) as usize))) == total_of(
            entries,
        ) + 1,
        count_in(entries.update(i, (entries[i].0, (entries[i].1 + 1) as usize)), color) == count_in(
            entries,
            color,
        ) + if entries[i].0 == color {
            1nat
        } else {
            0nat
        },
    decreases entries.len(),
{
    let next = entries.update(i, (entries[i].0, (entries[i].1 + 1) as usize));
    if i == entries.len() - 1 {
        assert(next.drop_last() =~= entries.drop_last());
    } else {
        lemma_increment(entries.drop_last(), i, color);
        assert(next.drop_last() =~= entries.drop_last().update(
            i,
            (entries[i].0, (entries[i].1 + 1) as usize),
        ));
    }
}

/// Entries that an index finds by their colors have different colors.
proof fn lemma_unique(entries: Seq<(Color, usize)>, index: Map<u32, usize>)
    requires
        forall|i: int|
            0 <= i < entries.len() ==> index.contains_key((#[trigger] entries[i]).0.packed() as u32)
                && index[entries[i].0.packed() as u32] == i,
    ensures
        forall|x: int, y: int|
            0 <= x < y < entries.len() ==> (#[trigger] entries[x]).0 != (#[trigger] entries[y]).0,
{
    assert forall|x: int, y: int| 0 <= x < y < entries.len() implies (#[trigger] entries[x]).0 != (
    #[trigger] entries[y]).0 by {
        if entries[x].0 == entries[y].0 {
            assert(index[entries[x].0.packed() as u32] == x);
            assert(index[entries[y].0.packed() as u32] == y);
        }
    }
}

/// A color that no entry has is counted zero times.
proof fn lemma_absent(entries: Seq<(Color, usize)>, color: Color)
    requires
        forall|i: int| 0 <= i < entries.len() ==> (#[trigger] entries[i]).0 != color,
    ensures
        count_in(entries, color) == 0,
    decreases entries.len(),
{
    if entries.len() > 0 {
        lemma_absent(entries.drop_last(), color);
    }
}

/// Where no two entries share a color, the count of an entry's color is that
/// entry's count.
proof fn lemma_present(entries: Seq<(Color, usize)>, i: int)
    requires
        0 <= i < entries.len(),
        forall|a: int, b: int|
            0 <= a < b < entries.len() ==> (#[trigger] entries[a]).0 != (#[trigger] entries[b]).0,
    ensures
        count_in(entries, entries[i].0) == entries[i].1,
    decreases entries.len(),
{
    if i == entries.len() - 1 {
        lemma_absent(entries.drop_last(), entries[i].0);
    } else {
        lemma_present(entries.drop_last(), i);
    }
}

/// No single count exceeds the total.
proof fn lemma_count_le_total(entries: Seq<(Color, usize)>, i: int)
    requires
        0 <= i < entries.len(),
    ensures
        entries[i].1 <= total_of(entries),
    decreases entries.len(),
{
    if i < entries.len() - 1 {
        lemma_count_le_total(entries.drop_last(), i);
    }
}

/// The entries of a histogram in quantization space: each color converted,
/// with its count.
pub open spec fn quantized_counts<C: ColorSpace>(colorspace: &C, entries: Seq<(Color, usize)>) -> Seq<
    ColorCount,
> {
    Seq::new(
        entries.len(),
        |i: int| ColorCount { color: colorspace.quantized(entries[i].0), count: entries[i].1 },
    )
}

/// Entries that carry the counts of a histogram count as many pixels as it.
proof fn lemma_counted_pixels(entries: Seq<(Color, usize)>, counts: Seq<ColorCount>)
    requires
        counts.len() == entries.len(),
        forall|i: int| 0 <= i < counts.len() ==> (#[trigger] counts[i]).count == entries[i].1,
    ensures
        crate::moments::moments(counts).n == total_of(entries),
    decreases entries.len(),
{
    if entries.len() > 0 {
        lemma_counted_pixels(entries.drop_last(), counts.drop_last());
    }
}

/// A histogram that counts the number of times each color occurs in the input
/// image data.
///
/// The histogram describes the color distribution of the input to the
/// quantization process. It is filled with `extend`, any number of times, so
/// that one palette can be made for several images.
pub struct Histogram {
    entries: Vec<(Color, usize)>,
    index: HashMap<u32, usize>,
}

impl Histogram {
    /// The distinct colors seen so far, each with its count, in the order in
    /// which they were first seen.
    pub closed spec fn entries(&self) -> Seq<(Color, usize)> {
        self.entries@
    }

    /// How often `color` has been counted.
    pub open spec fn count(&self, color: Color) -> nat {
        count_in(self.entries(), color)
    }

    /// The number of pixels counted.
    pub open spec fn total(&self) -> nat {
        total_of(self.entries())
    }

    /// The invariant of the histogram: the index finds every entry, no color
    /// occurs twice, no count is zero, and the total fits the machine.
    pub closed spec fn wf(&self) -> bool {
        &&& total_of(self.entries@) <= usize::MAX
        &&& forall|i: int|
            0 <= i < self.entries@.len() ==> {
                &&& self.index@.contains_key((#[trigger] self.entries@[i]).0.packed() as u32)
                &&& self.index@[self.entries@[i].0.packed() as u32] == i
                &&& self.entries@[i].1 >= 1
            }
        &&& forall|k: u32| #[trigger]
            self.index@.contains_key(k) ==> {
                &&& self.index@[k] < self.entries@.len()
                &&& self.entries@[self.index@[k] as int].0.packed() == k
            }
    }

    /// The histogram of an image of one color has one entry: that color, with
    /// the number of pixels.
    pub proof fn lemma_single_color(&self, color: Color)
        requires
            self.wf(),
            self.total() > 0,
            forall|c: Color| c != color ==> self.count(c) == 0,
        ensures
            self.entries() == seq![(color, self.total() as usize)],
    {
        let entries = self.entries@;
        assert forall|i: int| 0 <= i < entries.len() implies (#[trigger] entries[i]).0 == color by {
            lemma_unique(self.entries@, self.index@);
            lemma_present(entries, i);
            assert(entries[i].1 >= 1);
            assert(self.count(entries[i].0) == entries[i].1);
        }
        if entries.len() >= 2 {
            lemma_unique(self.entries@, self.index@);
            assert(entries[0].0 != entries[1].0);
        }
        if entries.len() == 0 {
            assert(total_of(entries) == 0);
        }
        assert(entries.drop_last() =~= Seq::<(Color, usize)>::empty());
        assert(total_of(entries.drop_last()) == 0);
        assert(entries =~= seq![(color, self.total() as usize)]);
    }

    /// Returns a new, empty `Histogram`.
    pub fn new() -> (h: Histogram)
        ensures
            h.wf(),
            h.entries() == Seq::<(Color, usize)>::empty(),
            h.total() == 0,
            forall|c: Color| h.count(c) == 0,
    {
        let h = Histogram { entries: Vec::new(), index: HashMap::new() };
        assert(h.entries@ =~= Seq::<(Color, usize)>::empty());
        h
    }

    /// Counts every pixel of `pixels`.
    pub fn extend(&mut self, pixels: &Vec<Color>)
        requires
            old(self).wf(),
            old(self).total() + pixels@.len() <= usize::MAX,
        ensures
            final(self).wf(),
            final(self).entries() == with_pixels(old(self).entries(), pixels@),
            final(self).total() == old(self).total() + pixels@.len(),
            forall|c: Color| #[trigger]
                final(self).count(c) == old(self).count(c) + pixels@.to_multiset().count(c),
    {
        let mut k: usize = 0;
        proof {
            assert(pixels@.take(0) =~= Seq::<Color>::empty());
            pixels@.take(0).to_multiset_ensures();
            assert forall|c: Color| pixels@.take(0).to_multiset().count(c) == 0 by {
                vstd::seq_lib::to_multiset_contains(pixels@.take(0), c);
            }
        }
        while k < pixels.len()
            invariant
                k <= pixels@.len(),
                self.wf(),
                old(self).total() + pixels@.len() <= usize::MAX,
                self.entries() == with_pixels(old(self).entries(), pixels@.take(k as int)),
                self.total() == old(self).total() + k,
                forall|c: Color| #[trigger]
                    self.count(c) == old(self).count(c) + pixels@.take(k as int).to_multiset().count(
                        c,
                    ),
            decreases pixels@.len() - k,
        {
            let pixel = pixels[k];
            self.insert(pixel);
            proof {
                assert(pixels@.take(k + 1) =~= pixels@.take(k as int).push(pixel));
                assert(pixels@.take(k + 1).drop_last() =~= pixels@.take(k as int));
                vstd::seq_lib::to_multiset_build(pixels@.take(k as int), pixel);
            }
            k += 1;
        }
        assert(pixels@.take(k as int) =~= pixels@);
    }

    /// Counts one pixel.
    pub fn insert(&mut self, pixel: Color)
        requires
            old(self).wf(),
            old(self).total() < usize::MAX,
        ensures
            final(self).wf(),
            final(self).entries() == with_pixel(old(self).entries(), pixel),
            final(self).total() == old(self).total() + 1,
            final(self).count(pixel) == old(self).count(pixel) + 1,
            forall|c: Color| c != pixel ==> #[trigger] final(self).count(c) == old(self).count(c),
    {
        let key = pixel.pack();
        let ghost before = self.entries@;
        let found: Option<usize> = match self.index.get(&key) {
            Some(i) => Some(*i),
            None => None,
        };
        match found {
            Some(i) => {
                let entry = self.entries[i];
                proof {
                    entry.0.lemma_packed_injective(pixel);
                    lemma_count_le_total(self.entries@, i as int);
                    assert forall|c: Color| true implies count_in(
                        self.entries@.update(i as int, (entry.0, (entry.1 + 1) as usize)),
                        c,
                    ) == count_in(self.entries@, c) + if entry.0 == c {
                        1nat
                    } else {
                        0nat
                    } by {
                        lemma_increment(self.entries@, i as int, c);
                    }
                    lemma_increment(self.entries@, i as int, pixel);
                    lemma_unique(self.entries@, self.index@);
                    assert(before[i as int].0 == pixel);
                    assert(holds(before, pixel));
                    assert(place(before, pixel) == i);
                }
                self.entries.set(i, (entry.0, entry.1 + 1));
            },
            None => {
                proof {
                    assert forall|i: int| 0 <= i < self.entries@.len() implies (
                    #[trigger] self.entries@[i]).0 != pixel by {
                        if self.entries@[i].0 == pixel {
                            assert(self.index@.contains_key(key));
                        }
                    }
                    lemma_absent(self.entries@, pixel);
                    assert(self.entries@.push((pixel, 1usize)).drop_last() =~= self.entries@);
                    assert(!holds(before, pixel));
                }
                let at = self.entries.len();
                self.index.insert(key, at);
                self.entries.push((pixel, 1));
            },
        }
    }

    /// How often `color` has been counted.
    pub fn get(&self, color: Color) -> (n: usize)
        requires
            self.wf(),
        ensures
            n == self.count(color),
    {
        let key = color.pack();
        match self.index.get(&key) {
            Some(i) => {
                proof {
                    self.entries@[*i as int].0.lemma_packed_injective(color);
                    lemma_present(self.entries@, *i as int);
                }
                self.entries[*i].1
            },
            None => {
                proof {
                    assert forall|i: int| 0 <= i < self.entries@.len() implies (
                    #[trigger] self.entries@[i]).0 != color by {
                        if self.entries@[i].0 == color {
                            assert(self.index@.contains_key(key));
                        }
                    }
                    lemma_absent(self.entries@, color);
                }
                0
            },
        }
    }

    /// The histogram of the given pixels.
    pub fn from_pixels(pixels: &Vec<Color>) -> (h: Histogram)
        ensures
            h.wf(),
            h.entries() == with_pixels(Seq::empty(), pixels@),
            h.total() == pixels@.len(),
            forall|c: Color| #[trigger] h.count(c) == pixels@.to_multiset().count(c),
    {
        let mut h = Histogram::new();
        assert(pixels@.len() == pixels.len());
        h.extend(pixels);
        h
    }

    /// Returns the histogram data: each distinct color once, with its count.
    pub fn iter(&self) -> (data: Vec<(Color, usize)>)
        requires
            self.wf(),
        ensures
            data@ == self.entries(),
            total_of(data@) == self.total(),
            forall|i: int|
                0 <= i < data@.len() ==> (#[trigger] data@[i]).1 >= 1 && data@[i].1 == self.count(
                    data@[i].0,
                ),
            forall|a: int, b: int|
                0 <= a < b < data@.len() ==> (#[trigger] data@[a]).0 != (#[trigger] data@[b]).0,
            forall|c: Color|
                self.count(c) > 0 ==> exists|i: int| 0 <= i < data@.len() && (#[trigger] data@[i]).0 == c,
    {
        proof {
            assert forall|a: int, b: int| 0 <= a < b < self.entries@.len() implies (
            #[trigger] self.entries@[a]).0 != (#[trigger] self.entries@[b]).0 by {
                if self.entries@[a].0 == self.entries@[b].0 {
                    assert(self.index@[self.entries@[a].0.packed() as u32] == a);
                    assert(self.index@[self.entries@[b].0.packed() as u32] == b);
                }
            }
            assert forall|i: int| 0 <= i < self.entries@.len() implies (
            #[trigger] self.entries@[i]).1 == self.count(self.entries@[i].0) by {
                lemma_present(self.entries@, i);
            }
            assert forall|c: Color| self.count(c) > 0 implies exists|i: int|
                0 <= i < self.entries@.len() && (#[trigger] self.entries@[i]).0 == c by {
                if forall|i: int| 0 <= i < self.entries@.len() ==> (#[trigger] self.entries@[i]).0 != c {
                    lemma_absent(self.entries@, c);
                }
            }
        }
        let mut data: Vec<(Color, usize)> = Vec::with_capacity(self.entries.len());
        let mut i: usize = 0;
        while i < self.entries.len()
            invariant
                i <= self.entries@.len(),
                data@ == self.entries@.take(i as int),
            decreases self.entries@.len() - i,
        {
            data.push(self.entries[i]);
            assert(data@ =~= self.entries@.take(i + 1));
            i += 1;
        }
        assert(data@ =~= self.entries@);
        data
    }

    /// Converts the rgba8 `Histogram` to a Vec of `ColorCount` in quantization
    /// color space.
    pub fn to_color_counts<C: ColorSpace>(&self, colorspace: &C) -> (counts: Vec<ColorCount>)
        requires
            self.wf(),
        ensures
            counts@ == quantized_counts(colorspace, self.entries()),
            forall|i: int|
                0 <= i < counts@.len() ==> (#[trigger] counts@[i]).color.in_range() && counts@[i].count
                    >= 1,
            crate::moments::moments(counts@).n == self.total(),
            self.total() <= crate::moments::COUNT_MAX ==> crate::moments::valid_histogram(counts@),
    {
        let mut counts: Vec<ColorCount> = Vec::with_capacity(self.entries.len());
        let mut i: usize = 0;
        while i < self.entries.len()
            invariant
                i <= self.entries@.len(),
                counts@.len() == i,
                forall|j: int|
                    0 <= j < i ==> {
                        &&& (#[trigger] counts@[j]).color == colorspace.quantized(
                            self.entries@[j].0,
                        )
                        &&& counts@[j].count == self.entries@[j].1
                        &&& counts@[j].color.in_range()
                    },
            decreases self.entries@.len() - i,
        {
            let entry = self.entries[i];
            counts.push(ColorCount { color: colorspace.to_float(entry.0), count: entry.1 });
            i += 1;
        }
        proof {
            lemma_counted_pixels(self.entries@, counts@);
            assert(counts@ =~= quantized_counts(colorspace, self.entries@));
        }
        counts
    }
}

} // verus!
