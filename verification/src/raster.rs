//! The pixel grid: in which order pixels are handed out, where each one
//! belongs in the finished picture, and how finished pixels that arrive in
//! any order are put back into rows.
//!
//! A pixel is addressed by its column, counted from the left, and its row,
//! counted from the bottom, as the camera sees it. The finished picture is
//! stored top row first. The [`Position`] of a pixel is the key by which it is
//! sorted into that order.

use vstd::arithmetic::div_mod::lemma_fundamental_div_mod_converse;
use vstd::prelude::*;

verus! {

/// Sorting key of a pixel: its row counted from one at the top of the picture,
/// then its column.
pub type Position = (u32, u32);

/// `at` names a pixel of a `width` by `height` picture.
pub open spec fn in_grid(width: nat, height: nat, at: Position) -> bool {
    1 <= at.0 <= height && at.1 < width
}

/// Index of the pixel at `at` in a picture stored row by row, top row first.
pub open spec fn slot(width: nat, at: Position) -> int {
    (at.0 - 1) * width + at.1
}

/// Order of positions: by row, then by column.
pub open spec fn precedes(a: Position, b: Position) -> bool {
    a.0 < b.0 || (a.0 == b.0 && a.1 <= b.1)
}

/// The position of the pixel in column `col` of row `row`, rows counted from
/// the bottom of a picture `height` rows high.
pub open spec fn position_of(height: nat, col: u32, row: u32) -> Position {
    ((height - row) as u32, col)
}

/// The `k`-th pixel handed out, as (column, row): the top row first, each row
/// from left to right.
pub open spec fn scan_pixel(width: nat, height: nat, k: int) -> (u32, u32) {
    ((k % (width as int)) as u32, (height - 1 - k / (width as int)) as u32)
}

/// A slot below `width * height` splits into a row and a column of the grid.
proof fn lemma_slot_splits(width: nat, height: nat, k: int)
    requires
        0 <= k < width * height,
    ensures
        width > 0,
        0 <= k % (width as int) < width,
        0 <= k / (width as int) < height,
        k == (k / (width as int)) * width + k % (width as int),
{
    let w = width as int;
    assert(w > 0) by (nonlinear_arith)
        requires
            0 <= k < w * height,
            w >= 0,
    ;
    vstd::arithmetic::div_mod::lemma_fundamental_div_mod(k, w);
    vstd::arithmetic::div_mod::lemma_mod_bound(k, w);
    let q = k / w;
    assert(w * q == q * w) by (nonlinear_arith);
    assert(0 <= q < height) by (nonlinear_arith)
        requires
            k == q * w + k % w,
            0 <= k % w < w,
            0 <= k < w * height,
            w > 0,
    ;
}

/// A position of the grid has a slot below `width * height`, and the slot
/// gives the position back.
proof fn lemma_slot_of_position(width: nat, height: nat, at: Position)
    requires
        in_grid(width, height, at),
    ensures
        0 <= slot(width, at) < width * height,
        slot(width, at) / (width as int) == at.0 - 1,
        slot(width, at) % (width as int) == at.1,
{
    let w = width as int;
    let r = at.0 - 1;
    lemma_fundamental_div_mod_converse(slot(width, at), w, r, at.1 as int);
    assert(r * w + at.1 < w * height) by (nonlinear_arith)
        requires
            0 <= r < height,
            0 <= at.1 < w,
    ;
    assert(0 <= r * w) by (nonlinear_arith)
        requires
            0 <= r,
            0 <= w,
    ;
}

/// Scanning hands the pixels out in the order in which the picture stores
/// them: the `k`-th pixel handed out belongs in slot `k`.
pub proof fn lemma_scan_is_row_major(width: nat, height: nat, k: int)
    requires
        0 <= k < width * height,
        width <= u32::MAX,
        height <= u32::MAX,
    ensures
        scan_pixel(width, height, k).0 < width,
        scan_pixel(width, height, k).1 < height,
        in_grid(
            width,
            height,
            position_of(height, scan_pixel(width, height, k).0, scan_pixel(width, height, k).1),
        ),
        slot(
            width,
            position_of(height, scan_pixel(width, height, k).0, scan_pixel(width, height, k).1),
        ) == k,
{
    lemma_slot_splits(width, height, k);
}

/// The sorting key of the pixel in column `col` of row `row`, rows counted
/// from the bottom.
pub fn position(height: u32, col: u32, row: u32) -> (at: Position)
    requires
        row < height,
    ensures
        at == position_of(height as nat, col, row),
{
    (height - row, col)
}

/// All pixels of a `width` by `height` picture as (column, row), in the order
/// in which they are handed out for rendering: the top row first, each row
/// from left to right.
pub fn scan_order(width: u32, height: u32) -> (order: Vec<(u32, u32)>)
    ensures
        order@.len() == width * height,
        forall|k: int|
            0 <= k < order@.len() ==> order@[k] == scan_pixel(width as nat, height as nat, k),
{
    let mut order: Vec<(u32, u32)> = Vec::new();
    let mut row: u32 = height;
    while row > 0
        invariant
            row <= height,
            order@.len() == (height - row) * width,
            forall|k: int|
                0 <= k < order@.len() ==> order@[k] == scan_pixel(width as nat, height as nat, k),
        decreases row,
    {
        row = row - 1;
        let mut col: u32 = 0;
        assert((height - 1 - row) * width + 0 == (height - (row + 1)) * width);
        while col < width
            invariant
                col <= width,
                row < height,
                order@.len() == (height - 1 - row) * width + col,
                forall|k: int|
                    0 <= k < order@.len() ==> order@[k] == scan_pixel(
                        width as nat,
                        height as nat,
                        k,
                    ),
            decreases width - col,
        {
            proof {
                lemma_fundamental_div_mod_converse(
                    order@.len() as int,
                    width as int,
                    height - 1 - row,
                    col as int,
                );
            }
            order.push((col, row));
            col = col + 1;
        }
        assert((height - 1 - row) * width + width == (height - row) * width) by (nonlinear_arith);
    }
    assert(height * width == width * height) by (nonlinear_arith);
    order
}

/// The slot of a position, if it lies in the grid.
pub fn slot_of(width: u32, height: u32, at: Position) -> (index: Option<u64>)
    ensures
        index is Some <==> in_grid(width as nat, height as nat, at),
        index matches Some(k) ==> k == slot(width as nat, at),
{
    if 1 <= at.0 && at.0 <= height && at.1 < width {
        let above: u64 = (at.0 - 1) as u64;
        let w: u64 = width as u64;
        assert(0 <= above * w <= 0xffff_ffff * 0xffff_ffff) by (nonlinear_arith)
            requires
                0 <= above <= 0xffff_ffff,
                0 <= w <= 0xffff_ffff,
        ;
        Some(above * w + at.1 as u64)
    } else {
        None
    }
}

/// The seed of the random stream of the pixel in slot `index`, derived from
/// the seed of the whole render.
pub open spec fn seed_for(seed: u64, index: u64) -> u64 {
    vstd::wrapping::u64_specs::wrapping_add(seed, index)
}

/// The seed from which the samples of one pixel are drawn. It depends on the
/// seed of the render and on the pixel's slot, and on nothing else, so that a
/// pixel comes out the same whenever and wherever it is rendered.
pub fn pixel_seed(seed: u64, index: u64) -> (stream: u64)
    ensures
        stream == seed_for(seed, index),
{
    seed.wrapping_add(index)
}

/// No two pixels of a render draw from the same stream.
pub proof fn lemma_seeds_differ(seed: u64, a: u64, b: u64)
    requires
        a != b,
    ensures
        seed_for(seed, a) != seed_for(seed, b),
{
}

/// Every pixel of a `width` by `height` picture occurs in `parts`, once:
/// there are as many parts as pixels, each lies in the grid, and no two share
/// a position.
pub open spec fn complete<T>(width: nat, height: nat, parts: Seq<(Position, T)>) -> bool {
    &&& parts.len() == width * height
    &&& forall|i: int| 0 <= i < parts.len() ==> in_grid(width, height, (#[trigger] parts[i]).0)
    &&& forall|i: int, j: int|
        0 <= i < j < parts.len() ==> (#[trigger] parts[i]).0 != (#[trigger] parts[j]).0
}

/// `pixels` holds the colour of each part in the slot of its position.
pub open spec fn places<T>(width: nat, parts: Seq<(Position, T)>, pixels: Seq<T>) -> bool {
    forall|i: int|
        0 <= i < parts.len() ==> pixels[slot(width, (#[trigger] parts[i]).0)] == parts[i].1
}

/// The parts are in the order of their positions.
pub open spec fn sorted_by_position<T>(parts: Seq<(Position, T)>) -> bool {
    forall|i: int, j: int|
        0 <= i < j < parts.len() ==> precedes((#[trigger] parts[i]).0, (#[trigger] parts[j]).0)
}

/// Of two different positions in the same grid, the one that precedes has
/// the smaller slot.
proof fn lemma_slot_increases(width: nat, height: nat, a: Position, b: Position)
    requires
        in_grid(width, height, a),
        in_grid(width, height, b),
        precedes(a, b),
        a != b,
    ensures
        slot(width, a) < slot(width, b),
{
    if a.0 < b.0 {
        let w = width as int;
        let ra = a.0 - 1;
        let rb = b.0 - 1;
        assert(ra * w + w <= rb * w) by (nonlinear_arith)
            requires
                ra + 1 <= rb,
                w >= 0,
        ;
    }
}

/// Different positions of a grid have different slots.
proof fn lemma_slot_is_injective(width: nat, height: nat, a: Position, b: Position)
    requires
        in_grid(width, height, a),
        in_grid(width, height, b),
        slot(width, a) == slot(width, b),
    ensures
        a == b,
{
    lemma_slot_of_position(width, height, a);
    lemma_slot_of_position(width, height, b);
}

/// Being complete does not depend on the order of the parts.
pub proof fn lemma_completeness_ignores_order<T>(
    width: nat,
    height: nat,
    p: Seq<(Position, T)>,
    s: Seq<(Position, T)>,
)
    requires
        complete(width, height, p),
        p.to_multiset() == s.to_multiset(),
    ensures
        complete(width, height, s),
{
    broadcast use vstd::seq_lib::group_to_multiset_ensures;

    assert(s.len() == p.len()) by {
        vstd::seq_lib::to_multiset_len(s);
        vstd::seq_lib::to_multiset_len(p);
    }
    assert forall|j: int| 0 <= j < s.len() implies p.contains(#[trigger] s[j]) by {
        assert(s.contains(s[j]));
        assert(s.to_multiset().count(s[j]) > 0);
    }
    assert forall|j: int| 0 <= j < s.len() implies in_grid(
        width,
        height,
        (#[trigger] s[j]).0,
    ) by {
        assert(p.contains(s[j]));
        let i = choose|i: int| 0 <= i < p.len() && p[i] == s[j];
        assert(in_grid(width, height, p[i].0));
    }
    assert(p.no_duplicates()) by {
        assert forall|i: int, j: int| 0 <= i < p.len() && 0 <= j < p.len() && i != j implies p[i]
            != p[j] by {
            if i < j {
                assert(p[i].0 != p[j].0);
            } else {
                assert(p[j].0 != p[i].0);
            }
        }
    }
    p.lemma_multiset_has_no_duplicates();
    s.lemma_multiset_has_no_duplicates_conv();
    assert forall|a: int, b: int| 0 <= a < b < s.len() implies (#[trigger] s[a]).0 != (
    #[trigger] s[b]).0 by {
        if s[a].0 == s[b].0 {
            assert(p.contains(s[a]));
            assert(p.contains(s[b]));
            let i = choose|i: int| 0 <= i < p.len() && p[i] == s[a];
            let j = choose|j: int| 0 <= j < p.len() && p[j] == s[b];
            if i < j {
                assert(p[i].0 != p[j].0);
            } else if j < i {
                assert(p[j].0 != p[i].0);
            }
            assert(s[a] == s[b]);
        }
    }
}

/// In a complete list sorted by position, the `k`-th part is at least in
/// slot `k`.
proof fn lemma_sorted_slot_lower<T>(width: nat, height: nat, s: Seq<(Position, T)>, k: int)
    requires
        complete(width, height, s),
        sorted_by_position(s),
        0 <= k < s.len(),
    ensures
        slot(width, s[k].0) >= k,
    decreases k,
{
    lemma_slot_of_position(width, height, s[k].0);
    if k > 0 {
        lemma_sorted_slot_lower(width, height, s, k - 1);
        assert(precedes(s[k - 1].0, s[k].0));
        assert(s[k - 1].0 != s[k].0);
        lemma_slot_increases(width, height, s[k - 1].0, s[k].0);
    }
}

/// In a complete list sorted by position, the `k`-th part is at most in
/// slot `k`.
proof fn lemma_sorted_slot_upper<T>(width: nat, height: nat, s: Seq<(Position, T)>, k: int)
    requires
        complete(width, height, s),
        sorted_by_position(s),
        0 <= k < s.len(),
    ensures
        slot(width, s[k].0) <= k,
    decreases s.len() - k,
{
    lemma_slot_of_position(width, height, s[k].0);
    if k + 1 < s.len() {
        lemma_sorted_slot_upper(width, height, s, k + 1);
        assert(precedes(s[k].0, s[k + 1].0));
        assert(s[k].0 != s[k + 1].0);
        lemma_slot_increases(width, height, s[k].0, s[k + 1].0);
    }
}

/// A complete list has a part for every slot of the picture.
pub proof fn lemma_complete_covers<T>(
    width: nat,
    height: nat,
    parts: Seq<(Position, T)>,
    k: int,
) -> (i: int)
    requires
        complete(width, height, parts),
        0 <= k < width * height,
    ensures
        0 <= i < parts.len(),
        slot(width, parts[i].0) == k,
{
    broadcast use vstd::seq_lib::seq_to_set_is_finite;

    let count = (width * height) as int;
    let slots = parts.map_values(|part: (Position, T)| slot(width, part.0));
    assert forall|i: int, j: int|
        0 <= i < slots.len() && 0 <= j < slots.len() && i != j implies slots[i] != slots[j] by {
        assert(in_grid(width, height, parts[i].0));
        assert(in_grid(width, height, parts[j].0));
        if slots[i] == slots[j] {
            lemma_slot_is_injective(width, height, parts[i].0, parts[j].0);
            if i < j {
                assert(parts[i].0 != parts[j].0);
            } else {
                assert(parts[j].0 != parts[i].0);
            }
        }
    }
    slots.unique_seq_to_set();
    vstd::set_lib::lemma_int_range(0, count);
    let all = vstd::set_lib::set_int_range(0, count);
    assert forall|x: int| slots.to_set().contains(x) implies all.contains(x) by {
        let i = choose|i: int| 0 <= i < slots.len() && slots[i] == x;
        assert(in_grid(width, height, parts[i].0));
        lemma_slot_of_position(width, height, parts[i].0);
    }
    vstd::set_lib::lemma_subset_equality(slots.to_set(), all);
    assert(all.contains(k));
    assert(slots.contains(k));
    let i = choose|i: int| 0 <= i < slots.len() && slots[i] == k;
    i
}

/// A complete list of parts leaves no choice: two pictures that both hold
/// every part in its slot are the same picture.
pub proof fn lemma_placement_is_unique<T>(
    width: nat,
    height: nat,
    parts: Seq<(Position, T)>,
    a: Seq<T>,
    b: Seq<T>,
)
    requires
        complete(width, height, parts),
        a.len() == width * height,
        b.len() == width * height,
        places(width, parts, a),
        places(width, parts, b),
    ensures
        a == b,
{
    assert forall|k: int| 0 <= k < a.len() implies a[k] == b[k] by {
        let i = lemma_complete_covers(width, height, parts, k);
        assert(a[slot(width, parts[i].0)] == parts[i].1);
        assert(b[slot(width, parts[i].0)] == parts[i].1);
    }
    assert(a =~= b);
}

/// The finished picture does not depend on the order in which its pixels
/// were finished: two lists that hold the same parts, in any order, are
/// complete together and give the same picture.
pub proof fn lemma_assembly_ignores_order<T>(
    width: nat,
    height: nat,
    first: Seq<(Position, T)>,
    second: Seq<(Position, T)>,
    a: Seq<T>,
    b: Seq<T>,
)
    requires
        first.to_multiset() == second.to_multiset(),
        complete(width, height, first),
        a.len() == width * height,
        b.len() == width * height,
        places(width, first, a),
        places(width, second, b),
    ensures
        complete(width, height, second),
        a == b,
{
    broadcast use vstd::seq_lib::group_to_multiset_ensures;

    lemma_completeness_ignores_order(width, height, first, second);
    assert forall|k: int| 0 <= k < a.len() implies a[k] == b[k] by {
        let i = lemma_complete_covers(width, height, first, k);
        assert(a[slot(width, first[i].0)] == first[i].1);
        assert(first.contains(first[i]));
        assert(second.to_multiset().count(first[i]) > 0);
        assert(second.contains(first[i]));
        let j = choose|j: int| 0 <= j < second.len() && second[j] == first[i];
        assert(b[slot(width, second[j].0)] == second[j].1);
    }
    assert(a =~= b);
}

/// The mathematical content of an [`Image`]: its size and its pixels, row by
/// row, top row first.
pub struct ImageView<T> {
    pub width: nat,
    pub height: nat,
    pub pixels: Seq<T>,
}

/// A finished picture: `width * height` pixels stored row by row, top row
/// first.
#[derive(Debug)]
pub struct Image<T> {
    width: u32,
    height: u32,
    pixels: Vec<T>,
}

impl<T> View for Image<T> {
    type V = ImageView<T>;

    closed spec fn view(&self) -> ImageView<T> {
        ImageView {
            width: self.width as nat,
            height: self.height as nat,
            pixels: self.pixels@,
        }
    }
}

/// Sorts the parts by position with `slice::sort_unstable_by_key`.
///
/// Believed of the standard library, not proved: the call rearranges the
/// elements it is given, losing and adding none, and leaves them in the order
/// of their keys. Keys are pairs of integers, which are ordered by their
/// first component and then by their second. Parts with equal keys may end up
/// in either order.
#[verifier::external_body]
fn sort_by_position<T>(parts: &mut Vec<(Position, T)>)
    ensures
        final(parts)@.to_multiset() == old(parts)@.to_multiset(),
        sorted_by_position(final(parts)@),
{
    parts.sort_unstable_by_key(|part| part.0);
}

impl<T> Image<T> {
    #[verifier::type_invariant]
    spec fn well_formed(self) -> bool {
        self.pixels@.len() == self.width * self.height
    }

    /// Takes pixels that are already in row order, top row first. Refused
    /// unless there are exactly `width * height` of them.
    pub fn from_pixels(width: u32, height: u32, pixels: Vec<T>) -> (image: Option<Image<T>>)
        ensures
            image is Some <==> pixels@.len() == width * height,
            image matches Some(picture) ==> picture@ == (ImageView {
                width: width as nat,
                height: height as nat,
                pixels: pixels@,
            }),
    {
        let w: u64 = width as u64;
        let h: u64 = height as u64;
        assert(w * h <= 0xffff_ffff * 0xffff_ffff) by (nonlinear_arith)
            requires
                w <= 0xffff_ffff,
                h <= 0xffff_ffff,
        ;
        if pixels.len() as u64 == w * h {
            Some(Image { width, height, pixels })
        } else {
            None
        }
    }

    /// Number of pixel columns.
    pub fn width(&self) -> (w: u32)
        ensures
            w == self@.width,
    {
        self.width
    }

    /// Number of pixel rows.
    pub fn height(&self) -> (h: u32)
        ensures
            h == self@.height,
    {
        self.height
    }

    /// All pixels, row by row, top row first.
    pub fn pixels(&self) -> (pixels: &Vec<T>)
        ensures
            pixels@ == self@.pixels,
            pixels@.len() == self@.width * self@.height,
    {
        proof {
            use_type_invariant(self);
        }
        &self.pixels
    }

    /// The pixel in column `col` of row `row`, rows counted from the bottom;
    /// nothing outside the picture.
    pub fn pixel(&self, col: u32, row: u32) -> (pixel: Option<&T>)
        ensures
            pixel is Some <==> col < self@.width && row < self@.height,
            pixel matches Some(p) ==> *p == self@.pixels[slot(
                self@.width,
                position_of(self@.height, col, row),
            )],
    {
        if col < self.width && row < self.height {
            proof {
                use_type_invariant(self);
                lemma_slot_of_position(
                    self.width as nat,
                    self.height as nat,
                    position_of(self.height as nat, col, row),
                );
            }
            let count: usize = self.pixels.len();
            let above: usize = (self.height - 1 - row) as usize;
            let w: usize = self.width as usize;
            assert(0 <= above * w && above * w + col < count) by (nonlinear_arith)
                requires
                    0 <= above < self.height,
                    0 <= col < w,
                    count == w * self.height,
            ;
            let index: usize = above * w + col as usize;
            Some(&self.pixels[index])
        } else {
            None
        }
    }
}

impl<T: Copy> Image<T> {
    /// Puts finished pixels, given with their positions in any order, into
    /// the rows of a picture.
    ///
    /// Succeeds exactly when the parts are [`complete`] for the given size;
    /// the picture then holds every part's colour in the slot of its
    /// position, which settles every one of its pixels.
    pub fn assemble(width: u32, height: u32, parts: Vec<(Position, T)>) -> (image: Option<
        Image<T>,
    >)
        ensures
            image is Some <==> complete(width as nat, height as nat, parts@),
            image matches Some(picture) ==> {
                &&& picture@.width == width
                &&& picture@.height == height
                &&& picture@.pixels.len() == width * height
                &&& places(width as nat, parts@, picture@.pixels)
            },
    {
        let ghost given = parts@;
        let ghost gw = width as nat;
        let ghost gh = height as nat;
        let w: u64 = width as u64;
        let h: u64 = height as u64;
        assert(w * h <= 0xffff_ffff * 0xffff_ffff) by (nonlinear_arith)
            requires
                w <= 0xffff_ffff,
                h <= 0xffff_ffff,
        ;
        if parts.len() as u64 != w * h {
            return None;
        }
        let mut sorted = parts;
        sort_by_position(&mut sorted);
        proof {
            vstd::seq_lib::to_multiset_len(sorted@);
            vstd::seq_lib::to_multiset_len(given);
        }
        let mut pixels: Vec<T> = Vec::new();
        let mut k: usize = 0;
        while k < sorted.len()
            invariant
                given == parts@,
                gw == width,
                gh == height,
                w == width,
                sorted@.len() == gw * gh,
                sorted@.to_multiset() == given.to_multiset(),
                sorted_by_position(sorted@),
                k <= sorted@.len(),
                pixels@.len() == k,
                forall|m: int|
                    0 <= m < k ==> {
                        &&& in_grid(gw, gh, (#[trigger] sorted@[m]).0)
                        &&& slot(gw, sorted@[m].0) == m
                        &&& pixels@[m] == sorted@[m].1
                    },
            decreases sorted@.len() - k,
        {
            let part = sorted[k];
            let at = part.0;
            proof {
                lemma_slot_splits(gw, gh, k as int);
            }
            let row_above: u64 = k as u64 / w;
            let col: u64 = k as u64 % w;
            if at.0 as u64 != row_above + 1 || at.1 as u64 != col {
                proof {
                    if complete(gw, gh, given) {
                        lemma_completeness_ignores_order(gw, gh, given, sorted@);
                        lemma_sorted_slot_lower(gw, gh, sorted@, k as int);
                        lemma_sorted_slot_upper(gw, gh, sorted@, k as int);
                        lemma_slot_of_position(gw, gh, sorted@[k as int].0);
                        assert(slot(gw, at) == k);
                        assert(false);
                    }
                }
                return None;
            }
            pixels.push(part.1);
            k = k + 1;
        }
        proof {
            let s = sorted@;
            assert forall|i: int, j: int| 0 <= i < j < s.len() implies (#[trigger] s[i]).0 != (
            #[trigger] s[j]).0 by {
                assert(slot(gw, s[i].0) == i);
                assert(slot(gw, s[j].0) == j);
            }
            assert(complete(gw, gh, s));
            lemma_completeness_ignores_order(gw, gh, s, given);
            broadcast use vstd::seq_lib::group_to_multiset_ensures;

            assert forall|i: int| 0 <= i < given.len() implies pixels@[slot(
                gw,
                (#[trigger] given[i]).0,
            )] == given[i].1 by {
                assert(given.contains(given[i]));
                assert(s.to_multiset().count(given[i]) > 0);
                assert(s.contains(given[i]));
                let j = choose|j: int| 0 <= j < s.len() && s[j] == given[i];
                assert(slot(gw, s[j].0) == j);
            }
        }
        Some(Image { width, height, pixels })
    }
}

} // verus!
