//! Nearest-color lookup in a palette: a k-d tree over the palette colors, and
//! for each palette entry its distance to the nearest other entry and the list
//! of entries it can see.

use vstd::prelude::*;
use crate::color::{integer_sqrt, Color, Vec4, Vector4};
use crate::colorspace::ColorSpace;
use crate::histogram::ColorCount;
use crate::moments::{measure, measure_squares, pick_axis};
use crate::sorting::{apply_order, sort_positions};

verus! {

/// The largest number of colors a palette may have.
pub const PALETTE_MAX: usize = 65536;

/// The palettes a map can be built from: between 1 and `PALETTE_MAX` colors,
/// all in range.
pub open spec fn valid_palette(colors: Seq<Vec4>) -> bool {
    &&& 1 <= colors.len() <= PALETTE_MAX
    &&& forall|j: int| 0 <= j < colors.len() ==> (#[trigger] colors[j]).in_range()
}

/// A limit no squared distance reaches: the search starts with it.
pub const NO_LIMIT: u128 = 0xffff_ffff_ffff_ffff_ffff_ffff_ffff_ffff;

/// The colors at the given palette indices, each as a histogram entry that
/// counts once.
pub open spec fn unit_entries(members: Seq<usize>, colors: Seq<Vec4>) -> Seq<ColorCount> {
    members.map_values(|j: usize| ColorCount { color: colors[j as int], count: 1 })
}

/// A node of the k-d tree. It holds one palette color and splits the others
/// by the plane through that color whose normal is the unit vector of channel
/// `axis`.
pub struct KDNode {
    pub mid_point: Vec4,
    pub index: usize,
    pub axis: u8,
    pub left: Option<Box<KDNode>>,
    pub right: Option<Box<KDNode>>,
}

/// The channel along which the listed palette colors vary most.
pub open spec fn split_axis(indices: Seq<usize>, colors: Seq<Vec4>) -> int {
    crate::moments::widest_axis(
        crate::moments::moments(unit_entries(indices, colors)).spread(),
    )
}

/// The coordinates of the listed palette colors along one channel.
pub open spec fn axis_keys(indices: Seq<usize>, colors: Seq<Vec4>, axis: int) -> Seq<i128> {
    Seq::new(indices.len(), |a: int| colors[indices[a] as int]@.channel(axis) as i128)
}

/// The listed palette indices in ascending order of their colors along the
/// channel in which these vary most; entries with equal coordinates keep
/// their order.
pub open spec fn sorted_indices(indices: Seq<usize>, colors: Seq<Vec4>) -> Seq<usize> {
    crate::sorting::reorder(
        indices,
        crate::sorting::stable_order(axis_keys(indices, colors, split_axis(indices, colors))),
    )
}

/// The k-d tree over the listed palette entries: the entry in the middle of
/// the sorted indices is the node, those before it make the left subtree and
/// those after it the right.
pub open spec fn build_tree(indices: Seq<usize>, colors: Seq<Vec4>) -> KDNode
    decreases indices.len(),
{
    let sorted = sorted_indices(indices, colors);
    let len = indices.len() as int;
    let mid = len / 2;
    KDNode {
        mid_point: colors[sorted[mid] as int],
        index: sorted[mid],
        axis: split_axis(indices, colors) as u8,
        left: if mid > 0 {
            Some(Box::new(build_tree(Seq::new(mid as nat, |a: int| sorted[a]), colors)))
        } else {
            None
        },
        right: if mid + 1 < len {
            Some(
                Box::new(
                    build_tree(
                        Seq::new((len - mid - 1) as nat, |a: int| sorted[mid + 1 + a]),
                        colors,
                    ),
                ),
            )
        } else {
            None
        },
    }
}

/// The palette indices `0`, `1`, ... below `n`.
pub open spec fn all_indices(n: nat) -> Seq<usize> {
    Seq::new(n, |i: int| i as usize)
}

/// The index that a lookup of `color` in the palette returns: what the
/// search of the tree over the whole palette finds with no limit and nothing
/// ignored.
pub open spec fn nearest_color(colors: Seq<Vec4>, color: Vec4) -> usize {
    match build_tree(all_indices(colors.len()), colors).search(
        color@,
        NO_LIMIT as int,
        usize::MAX as int,
    ) {
        Some(found) => found.0,
        None => 0,
    }
}

/// A palette entry found by a search, with its squared distance from the
/// needle.
#[derive(Copy, Clone, Debug)]
pub struct KDNearest {
    pub index: usize,
    pub distance: u128,
}

impl KDNode {
    /// The palette indices in the left subtree, in tree order.
    pub open spec fn left_members(&self) -> Seq<usize>
        decreases self, 0int,
    {
        match self.left {
            Some(l) => l.members(),
            None => Seq::empty(),
        }
    }

    /// The palette indices in the right subtree, in tree order.
    pub open spec fn right_members(&self) -> Seq<usize>
        decreases self, 0int,
    {
        match self.right {
            Some(r) => r.members(),
            None => Seq::empty(),
        }
    }

    /// The palette indices in the tree, in tree order.
    pub open spec fn members(&self) -> Seq<usize>
        decreases self, 1int,
    {
        self.left_members() + seq![self.index] + self.right_members()
    }

    /// The invariant of the tree over the palette `colors`: each node holds the
    /// color of its index and splits along the channel in which its members
    /// vary most; the left subtree holds half of the members, none of them
    /// beyond the node's color along that channel, and the right subtree holds
    /// the rest, none of them before it.
    pub open spec fn wf(&self, colors: Seq<Vec4>) -> bool
        decreases self,
    {
        &&& self.index < colors.len()
        &&& self.mid_point == colors[self.index as int]
        &&& self.axis < 4
        &&& self.axis == crate::moments::widest_axis(
            crate::moments::moments(unit_entries(self.members(), colors)).spread(),
        )
        &&& self.left_members().len() == self.members().len() / 2
        &&& forall|j: usize| #[trigger]
            self.left_members().contains(j) ==> j < colors.len() && colors[j as int]@.channel(
                self.axis as int,
            ) <= self.mid_point@.channel(self.axis as int)
        &&& forall|j: usize| #[trigger]
            self.right_members().contains(j) ==> j < colors.len() && colors[j as int]@.channel(
                self.axis as int,
            ) >= self.mid_point@.channel(self.axis as int)
        &&& match self.left {
            Some(l) => l.wf(colors),
            None => true,
        }
        &&& match self.right {
            Some(r) => r.wf(colors),
            None => true,
        }
    }

    /// What a search of the tree returns: the index and squared distance of a
    /// member other than `ignore` that is closer to the needle than `limit`,
    /// or nothing. The side of the plane on which the needle lies is searched
    /// first; the other side only if the plane is closer than the best
    /// candidate so far.
    pub open spec fn search(&self, needle: Vector4, limit: int, ignore: int) -> Option<
        (usize, int),
    >
        decreases self,
    {
        let distance = needle.dist_sq(self.mid_point@);
        let hit = distance < limit && self.index != ignore;
        let here = if hit {
            Some((self.index, distance))
        } else {
            None
        };
        let limit = if hit {
            distance
        } else {
            limit
        };
        let dot = needle.channel(self.axis as int) - self.mid_point@.channel(self.axis as int);
        let near = if dot <= 0 {
            self.left
        } else {
            self.right
        };
        let far = if dot <= 0 {
            self.right
        } else {
            self.left
        };
        let near_found = match near {
            Some(n) => n.search(needle, limit, ignore),
            None => None,
        };
        let best = if near_found is Some {
            near_found
        } else {
            here
        };
        let limit = match near_found {
            Some(found) => found.1,
            None => limit,
        };
        if dot * dot < limit {
            let far_found = match far {
                Some(n) => n.search(needle, limit, ignore),
                None => None,
            };
            if far_found is Some {
                far_found
            } else {
                best
            }
        } else {
            best
        }
    }

    /// A member of the tree is the node's own index or a member of a subtree.
    pub proof fn lemma_members(&self, j: usize)
        ensures
            self.members().contains(j) <==> (j == self.index || self.left_members().contains(j)
                || self.right_members().contains(j)),
    {
        let l = self.left_members();
        let r = self.right_members();
        let m = self.members();
        if m.contains(j) {
            let a = choose|a: int| 0 <= a < m.len() && m[a] == j;
            if a < l.len() {
                assert(l[a] == j);
            } else if a > l.len() {
                assert(r[a - l.len() - 1] == j);
            }
        }
        if l.contains(j) {
            let a = choose|a: int| 0 <= a < l.len() && l[a] == j;
            assert(m[a] == j);
        }
        if r.contains(j) {
            let a = choose|a: int| 0 <= a < r.len() && r[a] == j;
            assert(m[l.len() + 1 + a] == j);
        }
        assert(m[l.len() as int] == self.index);
    }

    /// The search is exact: what it returns is a member nearest to the needle
    /// among those below the limit and other than `ignore`, and it returns
    /// nothing only if there is no such member.
    pub proof fn lemma_search(&self, colors: Seq<Vec4>, needle: Vector4, limit: int, ignore: int)
        requires
            self.wf(colors),
        ensures
            match self.search(needle, limit, ignore) {
                Some(found) => {
                    &&& found.0 < colors.len()
                    &&& self.members().contains(found.0)
                    &&& found.0 != ignore
                    &&& found.1 == needle.dist_sq(colors[found.0 as int]@)
                    &&& found.1 < limit
                    &&& forall|j: usize| #[trigger]
                        self.members().contains(j) && j != ignore ==> needle.dist_sq(
                            colors[j as int]@,
                        ) >= found.1
                },
                None => forall|j: usize| #[trigger]
                    self.members().contains(j) && j != ignore ==> needle.dist_sq(colors[j as int]@)
                        >= limit,
            },
            forall|j: usize| #[trigger] self.members().contains(j) ==> j < colors.len(),
        decreases self,
    {
        let distance = needle.dist_sq(self.mid_point@);
        let hit = distance < limit && self.index != ignore;
        let limit1 = if hit {
            distance
        } else {
            limit
        };
        let axis = self.axis as int;
        let dot = needle.channel(axis) - self.mid_point@.channel(axis);
        let near = if dot <= 0 {
            self.left
        } else {
            self.right
        };
        let far = if dot <= 0 {
            self.right
        } else {
            self.left
        };
        let near_members = if dot <= 0 {
            self.left_members()
        } else {
            self.right_members()
        };
        let far_members = if dot <= 0 {
            self.right_members()
        } else {
            self.left_members()
        };
        let near_found = match near {
            Some(n) => n.search(needle, limit1, ignore),
            None => None,
        };
        match near {
            Some(n) => {
                n.lemma_search(colors, needle, limit1, ignore);
            },
            None => {},
        }
        let limit2 = match near_found {
            Some(found) => found.1,
            None => limit1,
        };
        let far_found = if dot * dot < limit2 {
            match far {
                Some(n) => n.search(needle, limit2, ignore),
                None => None,
            }
        } else {
            None
        };
        // No member of the near side or the node itself is below `limit2`.
        assert forall|j: usize| near_members.contains(j) && j != ignore implies needle.dist_sq(
            colors[j as int]@,
        ) >= limit2 by {
            match near {
                Some(n) => {
                    assert(n.members().contains(j));
                },
                None => {
                    assert(near_members =~= Seq::<usize>::empty());
                },
            }
        }
        // No member of the far side is below what the far side returned.
        let limit3 = match far_found {
            Some(found) => found.1,
            None => limit2,
        };
        if dot * dot < limit2 {
            match far {
                Some(n) => {
                    n.lemma_search(colors, needle, limit2, ignore);
                },
                None => {},
            }
        } else {
            assert forall|j: usize| far_members.contains(j) implies needle.dist_sq(
                colors[j as int]@,
            ) >= limit2 by {
                if dot <= 0 {
                    assert(self.right_members().contains(j));
                } else {
                    assert(self.left_members().contains(j));
                }
                lemma_beyond_plane(needle, colors[j as int]@, self.mid_point@, axis);
            }
        }
        assert forall|j: usize| far_members.contains(j) && j != ignore implies needle.dist_sq(
            colors[j as int]@,
        ) >= limit3 by {
            if dot * dot < limit2 {
                match far {
                    Some(n) => {
                        assert(n.members().contains(j));
                    },
                    None => {
                        assert(far_members =~= Seq::<usize>::empty());
                    },
                }
            }
        }
        assert forall|j: usize| #[trigger] self.members().contains(j) && j != ignore implies needle.dist_sq(
            colors[j as int]@,
        ) >= limit3 by {
            self.lemma_members(j);
            if j == self.index {
            } else if near_members.contains(j) {
            } else {
                assert(far_members.contains(j));
            }
        }
        assert forall|j: usize| #[trigger] self.members().contains(j) implies j < colors.len() by {
            self.lemma_members(j);
        }
        match self.search(needle, limit, ignore) {
            Some(found) => {
                self.lemma_members(found.0);
                assert(found.1 == limit3);
                if far_found is Some {
                    assert(far_members.contains(found.0));
                } else if near_found is Some {
                    assert(near_members.contains(found.0));
                } else {
                    assert(found.0 == self.index);
                }
            },
            None => {
                assert(limit3 == limit);
            },
        }
    }

    /// Builds the tree over the palette entries listed in `indices`.
    pub fn new(indices: Vec<usize>, colors: &Vec<Vec4>) -> (node: KDNode)
        requires
            0 < indices@.len() <= PALETTE_MAX,
            forall|a: int| 0 <= a < indices@.len() ==> #[trigger] indices@[a] < colors@.len(),
            forall|j: int| 0 <= j < colors@.len() ==> (#[trigger] colors@[j]).in_range(),
        ensures
            node == build_tree(indices@, colors@),
            node.wf(colors@),
            node.members().to_multiset() == indices@.to_multiset(),
        decreases indices@.len(),
    {
        let len = indices.len();
        // The channel along which the selected colors vary most.
        let mut selected: Vec<ColorCount> = Vec::with_capacity(len);
        let mut a: usize = 0;
        while a < len
            invariant
                a <= len,
                len == indices@.len(),
                forall|a: int| 0 <= a < indices@.len() ==> #[trigger] indices@[a] < colors@.len(),
                selected@ == unit_entries(indices@, colors@).take(a as int),
            decreases len - a,
        {
            selected.push(ColorCount { color: colors[indices[a]], count: 1 });
            assert(selected@ =~= unit_entries(indices@, colors@).take(a + 1));
            a += 1;
        }
        proof {
            assert(selected@ =~= unit_entries(indices@, colors@));
            lemma_unit_entries(indices@, colors@);
        }
        let (n, sum) = measure(&selected);
        let sum_sq = measure_squares(&selected);
        let axis = pick_axis(n, sum, sum_sq);

        // Sort the indices along that channel and split at the median.
        let mut keys: Vec<i128> = Vec::with_capacity(len);
        let mut a: usize = 0;
        while a < len
            invariant
                a <= len,
                len == indices@.len(),
                forall|a: int| 0 <= a < indices@.len() ==> #[trigger] indices@[a] < colors@.len(),
                keys@.len() == a,
                forall|b: int|
                    0 <= b < a ==> #[trigger] keys@[b] == colors@[indices@[b] as int]@.channel(
                        axis as int,
                    ),
            decreases len - a,
        {
            keys.push(colors[indices[a]].channel(axis) as i128);
            a += 1;
        }
        let order = sort_positions(&keys);
        let sorted = apply_order(&indices, &order);
        proof {
            assert(keys@.len() == keys.len());
            crate::sorting::lemma_stable_order(keys@);
            crate::sorting::lemma_reorder_multiset(indices@, keys@);
            assert(axis == split_axis(indices@, colors@));
            assert(keys@ =~= axis_keys(indices@, colors@, axis as int));
            assert(sorted@ == sorted_indices(indices@, colors@));
        }
        let mid = len / 2;
        let mut left_indices: Vec<usize> = Vec::with_capacity(mid);
        let mut a: usize = 0;
        while a < mid
            invariant
                a <= mid < len,
                len == sorted@.len(),
                left_indices@ == sorted@.take(a as int),
            decreases mid - a,
        {
            left_indices.push(sorted[a]);
            assert(left_indices@ =~= sorted@.take(a + 1));
            a += 1;
        }
        let mut right_indices: Vec<usize> = Vec::with_capacity(len - mid - 1);
        let mut a: usize = mid + 1;
        while a < len
            invariant
                mid < a <= len,
                len == sorted@.len(),
                right_indices@ == sorted@.subrange(mid + 1, a as int),
            decreases len - a,
        {
            right_indices.push(sorted[a]);
            assert(right_indices@ =~= sorted@.subrange(mid + 1, a + 1));
            a += 1;
        }
        let index = sorted[mid];
        proof {
            assert forall|a: int| 0 <= a < sorted@.len() implies #[trigger] sorted@[a]
                < colors@.len() by {
                assert(sorted@[a] == indices@[order@[a] as int]);
            }
            assert forall|a: int| 0 <= a < left_indices@.len() implies #[trigger] left_indices@[a]
                < colors@.len() by {
                assert(left_indices@[a] == sorted@[a]);
            }
            assert forall|a: int| 0 <= a < right_indices@.len() implies #[trigger] right_indices@[a]
                < colors@.len() by {
                assert(right_indices@[a] == sorted@[mid + 1 + a]);
            }
        }
        let ghost left_seq = left_indices@;
        let ghost right_seq = right_indices@;
        proof {
            assert(left_seq =~= Seq::new(mid as nat, |a: int| sorted@[a]));
            assert(right_seq =~= Seq::new((len - mid - 1) as nat, |a: int| sorted@[mid + 1 + a]));
        }
        let left = if mid > 0 {
            Some(Box::new(KDNode::new(left_indices, colors)))
        } else {
            None
        };
        let right = if mid + 1 < len {
            Some(Box::new(KDNode::new(right_indices, colors)))
        } else {
            None
        };
        let node = KDNode { mid_point: colors[index], index, axis, left, right };
        proof {
            lemma_build_tree(indices@, colors@);
        }
        node
    }

    /// Searches the tree for the member nearest to `needle` among those closer
    /// than `limit` (a squared distance) and other than `ignore_index`.
    pub fn find_nearest(&self, needle: Vec4, limit: u128, ignore_index: usize) -> (found: Option<
        KDNearest,
    >)
        ensures
            match found {
                Some(nearest) => self.search(needle@, limit as int, ignore_index as int) == Some(
                    (nearest.index, nearest.distance as int),
                ),
                None => self.search(needle@, limit as int, ignore_index as int) is None,
            },
        decreases self,
    {
        let mut limit = limit;
        let mut result: Option<KDNearest> = None;
        let distance = needle.dist_sq(self.mid_point);
        if distance < limit && self.index != ignore_index {
            limit = distance;
            result = Some(KDNearest { index: self.index, distance });
        }
        let dot: i128 = needle.channel(self.axis) as i128 - self.mid_point.channel(self.axis) as i128;
        proof {
            crate::color::lemma_product_bound(dot as int, dot as int, 0x1_0000_0000);
            crate::color::lemma_square_nonnegative(dot as int);
        }
        let plane: u128 = (dot * dot) as u128;
        if dot <= 0 {
            if let Some(left) = &self.left {
                if let Some(nearest) = left.find_nearest(needle, limit, ignore_index) {
                    limit = nearest.distance;
                    result = Some(nearest);
                }
            }
            if plane < limit {
                if let Some(right) = &self.right {
                    if let Some(nearest) = right.find_nearest(needle, limit, ignore_index) {
                        result = Some(nearest);
                    }
                }
            }
        } else {
            if let Some(right) = &self.right {
                if let Some(nearest) = right.find_nearest(needle, limit, ignore_index) {
                    limit = nearest.distance;
                    result = Some(nearest);
                }
            }
            if plane < limit {
                if let Some(left) = &self.left {
                    if let Some(nearest) = left.find_nearest(needle, limit, ignore_index) {
                        result = Some(nearest);
                    }
                }
            }
        }
        result
    }
}

/// A lookup returns a palette entry that is nearest to the color: no other
/// entry is closer.
pub proof fn lemma_nearest_color(colors: Seq<Vec4>, color: Vec4)
    requires
        valid_palette(colors),
    ensures
        nearest_color(colors, color) < colors.len(),
        forall|j: int|
            0 <= j < colors.len() ==> color@.dist_sq(colors[nearest_color(colors, color) as int]@)
                <= color@.dist_sq(#[trigger] colors[j]@),
{
    broadcast use vstd::seq_lib::group_to_multiset_ensures;

    let all = all_indices(colors.len());
    let tree = build_tree(all, colors);
    lemma_build_tree(all, colors);
    tree.lemma_search(colors, color@, NO_LIMIT as int, usize::MAX as int);
    assert forall|j: int| 0 <= j < colors.len() implies color@.dist_sq(
        colors[nearest_color(colors, color) as int]@,
    ) <= color@.dist_sq(#[trigger] colors[j]@) by {
        assert(all[j] == j as usize);
        assert(all.contains(j as usize));
        assert(all.to_multiset().count(j as usize) > 0);
        assert(tree.members().contains(j as usize));
        lemma_distance_below_limit(color, colors[j]);
    }
}

/// The tree over a list of palette entries is a k-d tree of exactly these
/// entries.
pub proof fn lemma_build_tree(indices: Seq<usize>, colors: Seq<Vec4>)
    requires
        0 < indices.len() <= PALETTE_MAX,
        forall|a: int| 0 <= a < indices.len() ==> #[trigger] indices[a] < colors.len(),
        forall|j: int| 0 <= j < colors.len() ==> (#[trigger] colors[j]).in_range(),
    ensures
        build_tree(indices, colors).wf(colors),
        build_tree(indices, colors).members().to_multiset() == indices.to_multiset(),
    decreases indices.len(),
{
    broadcast use vstd::seq_lib::group_to_multiset_ensures;

    let node = build_tree(indices, colors);
    let len = indices.len() as int;
    let mid = len / 2;
    let axis = split_axis(indices, colors);
    let keys = axis_keys(indices, colors, axis);
    let order = crate::sorting::stable_order(keys);
    let sorted = sorted_indices(indices, colors);
    let left_seq = Seq::new(mid as nat, |a: int| sorted[a]);
    let right_seq = Seq::new((len - mid - 1) as nat, |a: int| sorted[mid + 1 + a]);
    let index = sorted[mid];
    crate::sorting::lemma_stable_order(keys);
    crate::sorting::lemma_reorder_multiset(indices, keys);
    assert forall|a: int| 0 <= a < sorted.len() implies #[trigger] sorted[a] < colors.len() by {
        assert(sorted[a] == indices[order[a] as int]);
    }
    if mid > 0 {
        lemma_build_tree(left_seq, colors);
    }
    if mid + 1 < len {
        lemma_build_tree(right_seq, colors);
    }
    let key = |j: usize| colors[j as int]@.channel(axis);
    assert forall|a: int, b: int| 0 <= a <= b < len implies key(sorted[a]) <= key(sorted[b]) by {
        assert(sorted[a] == indices[order[a] as int]);
        assert(sorted[b] == indices[order[b] as int]);
        assert(keys[order[a] as int] == key(indices[order[a] as int]));
        assert(keys[order[b] as int] == key(indices[order[b] as int]));
        if a < b {
            assert(crate::sorting::pair_le(
                (keys[order[a] as int], order[a]),
                (keys[order[b] as int], order[b]),
            ));
        }
    }
    let lm = node.left_members();
    let rm = node.right_members();
    assert(lm.to_multiset() == left_seq.to_multiset()) by {
        if mid == 0 {
            assert(lm =~= left_seq);
        }
    }
    assert(rm.to_multiset() == right_seq.to_multiset()) by {
        if mid + 1 >= len {
            assert(rm =~= right_seq);
        }
    }
    lm.to_multiset_ensures();
    rm.to_multiset_ensures();
    left_seq.to_multiset_ensures();
    right_seq.to_multiset_ensures();
    assert forall|j: usize| #[trigger] lm.contains(j) implies j < colors.len() && key(j) <= key(
        index,
    ) by {
        assert(lm.to_multiset().count(j) > 0);
        assert(left_seq.contains(j));
        let a = choose|a: int| 0 <= a < left_seq.len() && left_seq[a] == j;
        assert(sorted[a] == j);
    }
    assert forall|j: usize| #[trigger] rm.contains(j) implies j < colors.len() && key(j) >= key(
        index,
    ) by {
        assert(rm.to_multiset().count(j) > 0);
        assert(right_seq.contains(j));
        let a = choose|a: int| 0 <= a < right_seq.len() && right_seq[a] == j;
        assert(sorted[mid + 1 + a] == j);
    }
    // The members are the indices, rearranged.
    vstd::seq_lib::lemma_multiset_commutative(lm + seq![index], rm);
    vstd::seq_lib::lemma_multiset_commutative(lm, seq![index]);
    vstd::seq_lib::lemma_multiset_commutative(left_seq + seq![index], right_seq);
    vstd::seq_lib::lemma_multiset_commutative(left_seq, seq![index]);
    assert(sorted =~= left_seq + seq![index] + right_seq);
    assert(node.members().to_multiset() == indices.to_multiset());
    node.members().to_multiset_ensures();
    indices.to_multiset_ensures();
    crate::sorting::lemma_map_values_multiset(
        node.members(),
        indices,
        |j: usize| ColorCount { color: colors[j as int], count: 1 },
    );
    crate::moments::lemma_moments_permutation(
        unit_entries(node.members(), colors),
        unit_entries(indices, colors),
    );
    lemma_unit_entries(indices, colors);
    assert(0 <= axis < 4);
}

/// A point on the far side of a plane from the needle is at least as far from
/// the needle as the plane is.
pub proof fn lemma_beyond_plane(needle: Vector4, point: Vector4, mid: Vector4, axis: int)
    requires
        (needle.channel(axis) <= mid.channel(axis) <= point.channel(axis)) || (point.channel(axis)
            <= mid.channel(axis) <= needle.channel(axis)),
    ensures
        needle.dist_sq(point) >= (needle.channel(axis) - mid.channel(axis)) * (needle.channel(axis)
            - mid.channel(axis)),
{
    let d = needle.minus(point);
    let g = needle.channel(axis) - mid.channel(axis);
    let e = d.channel(axis);
    crate::color::lemma_square_nonnegative(d.x);
    crate::color::lemma_square_nonnegative(d.y);
    crate::color::lemma_square_nonnegative(d.z);
    crate::color::lemma_square_nonnegative(d.w);
    assert(e * e >= g * g) by (nonlinear_arith)
        requires
            (e <= g <= 0) || (0 <= g <= e),
    ;
}

/// Entries that count once each are a valid histogram as long as there are no
/// more of them than a palette may hold.
pub proof fn lemma_unit_entries(members: Seq<usize>, colors: Seq<Vec4>)
    requires
        members.len() <= PALETTE_MAX,
        forall|a: int| 0 <= a < members.len() ==> #[trigger] members[a] < colors.len(),
        forall|j: int| 0 <= j < colors.len() ==> (#[trigger] colors[j]).in_range(),
    ensures
        crate::moments::moments(unit_entries(members, colors)).n == members.len(),
        crate::moments::valid_histogram(unit_entries(members, colors)),
    decreases members.len(),
{
    let e = unit_entries(members, colors);
    if members.len() > 0 {
        lemma_unit_entries(members.drop_last(), colors);
        assert(e.drop_last() =~= unit_entries(members.drop_last(), colors));
    }
    assert forall|i: int| 0 <= i < e.len() implies (#[trigger] e[i]).color.in_range() && e[i].count
        >= 1 by {
        assert(e[i].color == colors[members[i] as int]);
    }
}

/// Whether, seen from `origin`, the color `occluder` hides `target`: the
/// target lies at or beyond the plane halfway between origin and occluder.
pub open spec fn occludes(origin: Vector4, occluder: Vector4, target: Vector4) -> bool {
    let dir = occluder.minus(origin);
    dir.norm_sq() <= 2 * target.minus(origin).dot(dir)
}

/// Whether some entry of `list` hides palette entry `j` from entry `i`.
pub open spec fn hidden(colors: Seq<Vec4>, i: int, list: Seq<usize>, j: int) -> bool {
    exists|a: int|
        0 <= a < list.len() && occludes(
            colors[i]@,
            colors[(#[trigger] list[a]) as int]@,
            colors[j]@,
        )
}

/// The entries of `list` that palette entry `j` does not hide from entry `i`,
/// in their order.
pub open spec fn unshadowed(colors: Seq<Vec4>, i: int, list: Seq<usize>, j: int) -> Seq<usize>
    decreases list.len(),
{
    if list.len() == 0 {
        Seq::empty()
    } else {
        let rest = unshadowed(colors, i, list.drop_last(), j);
        if occludes(colors[i]@, colors[j]@, colors[list.last() as int]@) {
            rest
        } else {
            rest.push(list.last())
        }
    }
}

/// The neighbors of palette entry `i` among the first `k` entries: each entry
/// in turn joins the list unless an entry already listed hides it, and on
/// joining removes those that it hides.
pub open spec fn visible(colors: Seq<Vec4>, i: int, k: int) -> Seq<usize>
    decreases k,
{
    if k <= 0 {
        Seq::empty()
    } else {
        let list = visible(colors, i, k - 1);
        let j = k - 1;
        if j != i && !hidden(colors, i, list, j) {
            unshadowed(colors, i, list, j).push(j as usize)
        } else {
            list
        }
    }
}

/// The neighbors of palette entry `i`: the entries that no other entry hides
/// from it.
pub open spec fn visible_neighbors(colors: Seq<Vec4>, i: int) -> Seq<usize> {
    visible(colors, i, colors.len() as int)
}

/// Whether `d` is the distance from palette entry `i` to the nearest other
/// entry, rounded down; where there is no other entry it is `u64::MAX`.
pub open spec fn is_neighbor_distance(colors: Seq<Vec4>, i: int, d: u64) -> bool {
    if colors.len() <= 1 {
        d == u64::MAX
    } else {
        &&& exists|j: int|
            0 <= j < colors.len() && j != i && d == crate::color::isqrt(
                #[trigger] colors[i]@.dist_sq(colors[j]@) as nat,
            )
        &&& forall|j: int|
            0 <= j < colors.len() && j != i ==> d <= crate::color::isqrt(
                #[trigger] colors[i]@.dist_sq(colors[j]@) as nat,
            )
    }
}

/// Tests `occludes`.
fn is_occluded(origin: Vec4, occluder: Vec4, target: Vec4) -> (b: bool)
    requires
        origin.in_range(),
        occluder.in_range(),
        target.in_range(),
    ensures
        b == occludes(origin@, occluder@, target@),
{
    let dx: i128 = occluder.x as i128 - origin.x as i128;
    let dy: i128 = occluder.y as i128 - origin.y as i128;
    let dz: i128 = occluder.z as i128 - origin.z as i128;
    let dw: i128 = occluder.w as i128 - origin.w as i128;
    let tx: i128 = target.x as i128 - origin.x as i128;
    let ty: i128 = target.y as i128 - origin.y as i128;
    let tz: i128 = target.z as i128 - origin.z as i128;
    let tw: i128 = target.w as i128 - origin.w as i128;
    proof {
        let b: int = 0x20_0000;
        crate::color::lemma_product_bound(dx as int, dx as int, b);
        crate::color::lemma_product_bound(dy as int, dy as int, b);
        crate::color::lemma_product_bound(dz as int, dz as int, b);
        crate::color::lemma_product_bound(dw as int, dw as int, b);
        crate::color::lemma_product_bound(tx as int, dx as int, b);
        crate::color::lemma_product_bound(ty as int, dy as int, b);
        crate::color::lemma_product_bound(tz as int, dz as int, b);
        crate::color::lemma_product_bound(tw as int, dw as int, b);
        assert(b * b == 0x400_0000_0000) by (nonlinear_arith)
            requires
                b == 0x20_0000,
        ;
    }
    dx * dx + dy * dy + dz * dz + dw * dw <= 2 * (tx * dx + ty * dy + tz * dz + tw * dw)
}

/// A data structure for fast nearest color lookups in a palette.
pub struct ColorMap {
    kdtree: KDNode,
    neighbor_distance: Vec<u64>,
    neighbors: Vec<Vec<usize>>,
    colors: Vec<Vec4>,
}

impl ColorMap {
    /// The palette colors in quantization space.
    pub closed spec fn colors(&self) -> Seq<Vec4> {
        self.colors@
    }

    /// The index that a lookup of `color` returns.
    pub open spec fn nearest(&self, color: Vec4) -> usize {
        nearest_color(self.colors(), color)
    }

    /// The stored distance from palette entry `i` to its nearest neighbor.
    pub closed spec fn distance_to_neighbor(&self, i: int) -> u64 {
        self.neighbor_distance@[i]
    }

    /// The invariant of the map: the palette has between 1 and `PALETTE_MAX`
    /// colors, all in range; the tree is a k-d tree over all of them; and
    /// the neighbor distances and neighbor lists are those of the palette.
    pub closed spec fn wf(&self) -> bool {
        &&& 1 <= self.colors@.len() <= PALETTE_MAX
        &&& forall|j: int| 0 <= j < self.colors@.len() ==> (#[trigger] self.colors@[j]).in_range()
        &&& self.kdtree == build_tree(all_indices(self.colors@.len()), self.colors@)
        &&& self.kdtree.wf(self.colors@)
        &&& forall|j: usize| j < self.colors@.len() ==> #[trigger] self.kdtree.members().contains(j)
        &&& self.neighbor_distance@.len() == self.colors@.len()
        &&& forall|i: int|
            0 <= i < self.colors@.len() ==> is_neighbor_distance(
                self.colors@,
                i,
                #[trigger] self.neighbor_distance@[i],
            )
        &&& self.neighbors@.len() == self.colors@.len()
        &&& forall|i: int|
            0 <= i < self.colors@.len() ==> (#[trigger] self.neighbors@[i])@ == visible_neighbors(
                self.colors@,
                i,
            )
    }

    /// The palette of every map is a valid palette.
    pub proof fn lemma_palette(&self)
        requires
            self.wf(),
        ensures
            valid_palette(self.colors()),
    {
    }

    /// A lookup returns a palette entry that is nearest to the color: no other
    /// entry is closer.
    pub proof fn lemma_nearest(&self, color: Vec4)
        requires
            self.wf(),
        ensures
            self.nearest(color) < self.colors().len(),
            forall|j: int|
                0 <= j < self.colors().len() ==> color@.dist_sq(
                    self.colors()[self.nearest(color) as int]@,
                ) <= color@.dist_sq(#[trigger] self.colors()[j]@),
    {
        lemma_nearest_color(self.colors@, color);
    }

    /// The stored neighbor distance is the distance to the nearest other
    /// palette entry.
    pub proof fn lemma_neighbor_distance(&self, i: int)
        requires
            self.wf(),
            0 <= i < self.colors().len(),
        ensures
            is_neighbor_distance(self.colors(), i, self.distance_to_neighbor(i)),
    {
    }

    /// Create a `ColorMap` from a palette of RGBA8 colors.
    pub fn new<C: ColorSpace>(colors: &Vec<Color>, colorspace: &C) -> (map: ColorMap)
        requires
            1 <= colors@.len() <= PALETTE_MAX,
        ensures
            map.wf(),
            map.colors().len() == colors@.len(),
            forall|i: int|
                0 <= i < colors@.len() ==> #[trigger] map.colors()[i] == colorspace.quantized(
                    colors@[i],
                ),
    {
        let mut float_colors: Vec<Vec4> = Vec::with_capacity(colors.len());
        let mut i: usize = 0;
        while i < colors.len()
            invariant
                i <= colors@.len(),
                float_colors@.len() == i,
                forall|j: int|
                    0 <= j < i ==> #[trigger] float_colors@[j] == colorspace.quantized(colors@[j]),
                forall|j: int| 0 <= j < i ==> (#[trigger] float_colors@[j]).in_range(),
            decreases colors@.len() - i,
        {
            float_colors.push(colorspace.to_float(colors[i]));
            i += 1;
        }
        ColorMap::from_float_colors(float_colors)
    }

    /// Create a `ColorMap` from colors in quantization space.
    pub fn from_float_colors(colors: Vec<Vec4>) -> (map: ColorMap)
        requires
            1 <= colors@.len() <= PALETTE_MAX,
            forall|j: int| 0 <= j < colors@.len() ==> (#[trigger] colors@[j]).in_range(),
        ensures
            map.wf(),
            map.colors() == colors@,
    {
        let n = colors.len();
        let mut indices: Vec<usize> = Vec::with_capacity(n);
        let mut j: usize = 0;
        while j < n
            invariant
                j <= n,
                indices@.len() == j,
                forall|a: int| 0 <= a < j ==> #[trigger] indices@[a] == a,
            decreases n - j,
        {
            indices.push(j);
            j += 1;
        }
        let ghost all = indices@;
        assert(all =~= all_indices(n as nat));
        let kdtree = KDNode::new(indices, &colors);
        proof {
            broadcast use vstd::seq_lib::group_to_multiset_ensures;

            assert forall|j: usize| j < n implies #[trigger] kdtree.members().contains(j) by {
                assert(all[j as int] == j);
                assert(all.contains(j));
                assert(all.to_multiset().count(j) > 0);
            }
        }
        let mut neighbor_distance: Vec<u64> = Vec::with_capacity(n);
        let mut i: usize = 0;
        while i < n
            invariant
                i <= n,
                n == colors@.len(),
                1 <= n <= PALETTE_MAX,
                kdtree.wf(colors@),
                forall|j: usize| j < n ==> #[trigger] kdtree.members().contains(j),
                neighbor_distance@.len() == i,
                forall|a: int|
                    0 <= a < i ==> is_neighbor_distance(
                        colors@,
                        a,
                        #[trigger] neighbor_distance@[a],
                    ),
            decreases n - i,
        {
            let c = colors[i];
            let d = match kdtree.find_nearest(c, NO_LIMIT, i) {
                Some(nearest) => {
                    proof {
                        kdtree.lemma_search(colors@, c@, NO_LIMIT as int, i as int);
                        crate::color::lemma_isqrt_exists(nearest.distance as nat);
                        assert(nearest.distance == c@.dist_sq(colors@[nearest.index as int]@));
                        lemma_distance_below_limit(c, colors@[nearest.index as int]);
                        assert forall|j: int| 0 <= j < n && j != i implies crate::color::isqrt(
                            nearest.distance as nat,
                        ) <= crate::color::isqrt(#[trigger] c@.dist_sq(colors@[j]@) as nat) by {
                            assert(kdtree.members().contains(j as usize));
                            lemma_distance_below_limit(c, colors@[j]);
                            crate::color::lemma_isqrt_monotonic(
                                nearest.distance as nat,
                                c@.dist_sq(colors@[j]@) as nat,
                            );
                        }
                    }
                    integer_sqrt(nearest.distance)
                },
                None => {
                    proof {
                        kdtree.lemma_search(colors@, c@, NO_LIMIT as int, i as int);
                        if n > 1 {
                            let j: usize = if i == 0 {
                                1
                            } else {
                                0
                            };
                            assert(kdtree.members().contains(j));
                            lemma_distance_below_limit(c, colors@[j as int]);
                        }
                    }
                    u64::MAX
                },
            };
            neighbor_distance.push(d);
            i += 1;
        }
        let mut neighbors: Vec<Vec<usize>> = Vec::with_capacity(n);
        let mut i: usize = 0;
        while i < n
            invariant
                i <= n,
                n == colors@.len(),
                forall|j: int| 0 <= j < colors@.len() ==> (#[trigger] colors@[j]).in_range(),
                neighbors@.len() == i,
                forall|a: int|
                    0 <= a < i ==> (#[trigger] neighbors@[a])@ == visible_neighbors(colors@, a),
            decreases n - i,
        {
            let list = find_neighbors(&colors, i);
            neighbors.push(list);
            i += 1;
        }
        ColorMap { kdtree, neighbor_distance, neighbors, colors }
    }

    /// Returns the index of the nearest color in the palette.
    pub fn find_nearest(&self, color: Vec4) -> (index: usize)
        requires
            self.wf(),
        ensures
            index == self.nearest(color),
            index < self.colors().len(),
            forall|j: int|
                0 <= j < self.colors().len() ==> color@.dist_sq(self.colors()[index as int]@)
                    <= color@.dist_sq(#[trigger] self.colors()[j]@),
    {
        proof {
            self.lemma_nearest(color);
        }
        match self.kdtree.find_nearest(color, NO_LIMIT, usize::MAX) {
            Some(nearest) => nearest.index,
            None => 0,
        }
    }

    /// Returns the distance to the closest neighbor color of a palette entry
    /// given by index, rounded down.
    pub fn neighbor_distance(&self, index: usize) -> (d: u64)
        requires
            self.wf(),
            index < self.colors().len(),
        ensures
            d == self.distance_to_neighbor(index as int),
            is_neighbor_distance(self.colors(), index as int, d),
    {
        self.neighbor_distance[index]
    }

    /// Returns the list of neighbors (as indices) for a palette color given by
    /// index.
    pub fn neighbors(&self, index: usize) -> (list: &Vec<usize>)
        requires
            self.wf(),
            index < self.colors().len(),
        ensures
            list@ == visible_neighbors(self.colors(), index as int),
            forall|a: int| 0 <= a < list@.len() ==> #[trigger] list@[a] < self.colors().len(),
    {
        proof {
            lemma_visible_bounded(self.colors@, index as int, self.colors@.len() as int);
        }
        &self.neighbors[index]
    }

    /// Returns the palette color for the given index.
    pub fn float_color(&self, index: usize) -> (c: Vec4)
        requires
            self.wf(),
            index < self.colors().len(),
        ensures
            c == self.colors()[index as int],
            c.in_range(),
    {
        self.colors[index]
    }

    /// Returns the number of colors in the palette.
    pub fn num_colors(&self) -> (n: usize)
        requires
            self.wf(),
        ensures
            n == self.colors().len(),
            1 <= n <= PALETTE_MAX,
    {
        self.colors.len()
    }
}

/// What is left of a list of palette indices is a list of palette indices.
pub proof fn lemma_unshadowed_bounded(
    colors: Seq<Vec4>,
    i: int,
    list: Seq<usize>,
    j: int,
    bound: int,
)
    requires
        forall|a: int| 0 <= a < list.len() ==> #[trigger] list[a] < bound,
    ensures
        forall|a: int|
            0 <= a < unshadowed(colors, i, list, j).len() ==> #[trigger] unshadowed(
                colors,
                i,
                list,
                j,
            )[a] < bound,
    decreases list.len(),
{
    if list.len() > 0 {
        lemma_unshadowed_bounded(colors, i, list.drop_last(), j, bound);
        let rest = unshadowed(colors, i, list.drop_last(), j);
        let all = unshadowed(colors, i, list, j);
        assert forall|a: int| 0 <= a < all.len() implies #[trigger] all[a] < bound by {
            if a < rest.len() {
                assert(all[a] == rest[a]);
            } else {
                assert(all[a] == list[list.len() - 1]);
            }
        }
    }
}

/// The neighbors found among the first `k` palette entries are among them.
pub proof fn lemma_visible_bounded(colors: Seq<Vec4>, i: int, k: int)
    requires
        0 <= k,
    ensures
        forall|a: int| 0 <= a < visible(
            colors,
            i,
            k,
        ).len() ==> #[trigger] visible(colors, i, k)[a] < k,
    decreases k,
{
    if k > 0 {
        lemma_visible_bounded(colors, i, k - 1);
        lemma_unshadowed_bounded(colors, i, visible(colors, i, k - 1), k - 1, k);
    }
}

/// Every squared distance is below the limit that a search starts with.
pub proof fn lemma_distance_below_limit(a: Vec4, b: Vec4)
    ensures
        0 <= a@.dist_sq(b@) <= 0x4_0000_0000_0000_0000,
        a@.dist_sq(b@) < NO_LIMIT,
{
    let d = a@.minus(b@);
    crate::color::lemma_product_bound(d.x, d.x, 0x1_0000_0000);
    crate::color::lemma_product_bound(d.y, d.y, 0x1_0000_0000);
    crate::color::lemma_product_bound(d.z, d.z, 0x1_0000_0000);
    crate::color::lemma_product_bound(d.w, d.w, 0x1_0000_0000);
    crate::color::lemma_square_nonnegative(d.x);
    crate::color::lemma_square_nonnegative(d.y);
    crate::color::lemma_square_nonnegative(d.z);
    crate::color::lemma_square_nonnegative(d.w);
}

/// Whether some entry of `list` hides palette entry `j` from entry `i`.
fn is_hidden(colors: &Vec<Vec4>, i: usize, list: &Vec<usize>, j: usize) -> (b: bool)
    requires
        i < colors@.len(),
        j < colors@.len(),
        forall|a: int| 0 <= a < list@.len() ==> #[trigger] list@[a] < colors@.len(),
        forall|j: int| 0 <= j < colors@.len() ==> (#[trigger] colors@[j]).in_range(),
    ensures
        b == hidden(colors@, i as int, list@, j as int),
{
    let mut a: usize = 0;
    while a < list.len()
        invariant
            a <= list@.len(),
            i < colors@.len(),
            j < colors@.len(),
            forall|a: int| 0 <= a < list@.len() ==> #[trigger] list@[a] < colors@.len(),
            forall|j: int| 0 <= j < colors@.len() ==> (#[trigger] colors@[j]).in_range(),
            forall|b: int|
                0 <= b < a ==> !occludes(
                    colors@[i as int]@,
                    colors@[(#[trigger] list@[b]) as int]@,
                    colors@[j as int]@,
                ),
        decreases list@.len() - a,
    {
        if is_occluded(colors[i], colors[list[a]], colors[j]) {
            return true;
        }
        a += 1;
    }
    false
}

/// The entries of `list` that palette entry `j` does not hide from entry `i`.
fn keep_unshadowed(colors: &Vec<Vec4>, i: usize, list: &Vec<usize>, j: usize) -> (kept: Vec<usize>)
    requires
        i < colors@.len(),
        j < colors@.len(),
        forall|a: int| 0 <= a < list@.len() ==> #[trigger] list@[a] < colors@.len(),
        forall|j: int| 0 <= j < colors@.len() ==> (#[trigger] colors@[j]).in_range(),
    ensures
        kept@ == unshadowed(colors@, i as int, list@, j as int),
        forall|a: int| 0 <= a < kept@.len() ==> #[trigger] kept@[a] < colors@.len(),
{
    let mut kept: Vec<usize> = Vec::with_capacity(list.len());
    let mut a: usize = 0;
    while a < list.len()
        invariant
            a <= list@.len(),
            i < colors@.len(),
            j < colors@.len(),
            forall|a: int| 0 <= a < list@.len() ==> #[trigger] list@[a] < colors@.len(),
            forall|j: int| 0 <= j < colors@.len() ==> (#[trigger] colors@[j]).in_range(),
            kept@ == unshadowed(colors@, i as int, list@.take(a as int), j as int),
            forall|a: int| 0 <= a < kept@.len() ==> #[trigger] kept@[a] < colors@.len(),
        decreases list@.len() - a,
    {
        assert(list@.take(a + 1).drop_last() =~= list@.take(a as int));
        if !is_occluded(colors[i], colors[j], colors[list[a]]) {
            kept.push(list[a]);
        }
        a += 1;
    }
    assert(list@.take(a as int) =~= list@);
    kept
}

/// The neighbors of palette entry `i`.
fn find_neighbors(colors: &Vec<Vec4>, i: usize) -> (list: Vec<usize>)
    requires
        i < colors@.len(),
        forall|j: int| 0 <= j < colors@.len() ==> (#[trigger] colors@[j]).in_range(),
    ensures
        list@ == visible_neighbors(colors@, i as int),
        forall|a: int| 0 <= a < list@.len() ==> #[trigger] list@[a] < colors@.len(),
{
    let mut list: Vec<usize> = Vec::new();
    let mut j: usize = 0;
    while j < colors.len()
        invariant
            j <= colors@.len(),
            i < colors@.len(),
            forall|j: int| 0 <= j < colors@.len() ==> (#[trigger] colors@[j]).in_range(),
            list@ == visible(colors@, i as int, j as int),
            forall|a: int| 0 <= a < list@.len() ==> #[trigger] list@[a] < colors@.len(),
        decreases colors@.len() - j,
    {
        if i != j && !is_hidden(colors, i, &list, j) {
            list = keep_unshadowed(colors, i, &list, j);
            list.push(j);
        }
        j += 1;
    }
    list
}

} // verus!
