//! Indexing a colour stream: every pixel's colour is interned in turn, in
//! row-major order, which gives the image's palette and one palette index
//! per pixel.

use crate::palette::{index_spec, intern_spec, overflows, Palette};
use crate::range::all_indices;
use vstd::prelude::*;

verus! {

/// The palette after every colour of the stream was interned in order.
pub open spec fn palette_of(colors: Seq<u16>) -> Seq<u16>
    decreases colors.len(),
{
    if colors.len() == 0 {
        Seq::empty()
    } else {
        intern_spec(palette_of(colors.drop_last()), colors.last())
    }
}

/// The index that pixel `i` gets: that of its colour in the palette of the
/// pixels before it.
pub open spec fn index_at(colors: Seq<u16>, i: int) -> int {
    index_spec(palette_of(colors.take(i)), colors[i])
}

/// Pixel `i` overflows the palette: its colour has no slot and none is left.
pub open spec fn overflows_at(colors: Seq<u16>, i: int) -> bool {
    overflows(palette_of(colors.take(i)), colors[i])
}

/// The index stream of a colour stream: one index per pixel.
pub open spec fn indices_of(colors: Seq<u16>) -> Seq<u8> {
    Seq::new(colors.len(), |i: int| index_at(colors, i) as u8)
}

/// The positions among the first `n` pixels that overflow the palette, in
/// rising order.
pub open spec fn overflows_upto(colors: Seq<u16>, n: nat) -> Seq<int>
    decreases n,
{
    if n == 0 {
        Seq::empty()
    } else if overflows_at(colors, n - 1) {
        overflows_upto(colors, (n - 1) as nat).push(n - 1)
    } else {
        overflows_upto(colors, (n - 1) as nat)
    }
}

/// The positions of all pixels that overflow the palette, in rising order.
pub open spec fn overflows_of(colors: Seq<u16>) -> Seq<int> {
    overflows_upto(colors, colors.len())
}

/// `at` is where `color` first occurs in the stream.
pub open spec fn first_seen_at(colors: Seq<u16>, color: u16, at: int) -> bool {
    &&& 0 <= at < colors.len()
    &&& colors[at] == color
    &&& forall|j: int| 0 <= j < at ==> #[trigger] colors[j] != color
}

/// Where `color` first occurs in the stream, if it occurs at all.
pub open spec fn first_seen(colors: Seq<u16>, color: u16) -> int {
    choose|at: int| first_seen_at(colors, color, at)
}

/// What holds of the palette of every stream: it has at most eight
/// colours, none twice, all of them from the stream; and as long as it is
/// not full it holds every colour of the stream.
pub proof fn lemma_palette_of(colors: Seq<u16>)
    ensures
        palette_of(colors).len() <= 8,
        palette_of(colors).len() <= colors.len(),
        palette_of(colors).no_duplicates(),
        forall|k: int|
            0 <= k < palette_of(colors).len() ==> colors.contains(#[trigger] palette_of(colors)[k]),
        palette_of(colors).len() < 8 ==> forall|i: int|
            0 <= i < colors.len() ==> palette_of(colors).contains(#[trigger] colors[i]),
    decreases colors.len(),
{
    if colors.len() != 0 {
        let before = colors.drop_last();
        let last = colors.last();
        let p = palette_of(before);
        let q = palette_of(colors);
        lemma_palette_of(before);
        assert forall|k: int| 0 <= k < q.len() implies colors.contains(#[trigger] q[k]) by {
            if k < p.len() {
                assert(before.contains(p[k]));
                let at = before.index_of(p[k]);
                assert(colors[at] == p[k]);
            } else {
                assert(q[k] == last);
                assert(colors[colors.len() - 1] == last);
            }
        }
        if q.len() < 8 {
            assert forall|i: int| 0 <= i < colors.len() implies q.contains(
                #[trigger] colors[i],
            ) by {
                if i < before.len() {
                    assert(before[i] == colors[i]);
                    assert(p.contains(colors[i]));
                    let at = p.index_of(colors[i]);
                    assert(q[at] == colors[i]);
                } else {
                    if p.contains(last) {
                        let at = p.index_of(last);
                        assert(q[at] == last);
                    } else {
                        assert(q[q.len() - 1] == last);
                    }
                }
            }
        }
    }
}

/// The palette only grows at its end: that of a shorter stream is the start
/// of that of the whole stream.
pub proof fn lemma_palette_grows(colors: Seq<u16>, n: int)
    requires
        0 <= n <= colors.len(),
    ensures
        palette_of(colors.take(n)).is_prefix_of(palette_of(colors)),
    decreases colors.len() - n,
{
    if n == colors.len() {
        assert(colors.take(n) =~= colors);
    } else {
        lemma_palette_grows(colors, n + 1);
        let longer = colors.take(n + 1);
        assert(longer.drop_last() =~= colors.take(n));
        assert(palette_of(colors.take(n)).is_prefix_of(palette_of(longer)));
    }
}

/// A full palette stays as it is.
pub proof fn lemma_full_palette_stays(colors: Seq<u16>, n: int)
    requires
        0 <= n <= colors.len(),
        palette_of(colors.take(n)).len() >= 8,
    ensures
        palette_of(colors) == palette_of(colors.take(n)),
{
    lemma_palette_grows(colors, n);
    lemma_palette_of(colors);
    assert(palette_of(colors) =~= palette_of(colors.take(n)));
}

/// Palette order: the colours of the palette stand in the order in which
/// they first occur in the stream. Each palette colour has a first
/// occurrence, and of two palette colours the one in the lower slot occurs
/// first.
pub proof fn theorem_palette_order(colors: Seq<u16>)
    ensures
        forall|k: int|
            0 <= k < palette_of(colors).len() ==> first_seen_at(
                colors,
                #[trigger] palette_of(colors)[k],
                first_seen(colors, palette_of(colors)[k]),
            ),
        forall|j: int, k: int|
            0 <= j < k < palette_of(colors).len() ==> first_seen(
                colors,
                #[trigger] palette_of(colors)[j],
            ) < first_seen(colors, #[trigger] palette_of(colors)[k]),
{
    let p = palette_of(colors);
    lemma_palette_of(colors);
    lemma_palette_order(colors);
    assert forall|k: int| 0 <= k < p.len() implies first_seen_at(
        colors,
        #[trigger] p[k],
        first_seen(colors, p[k]),
    ) by {
        lemma_first_seen_exists(colors, p[k]);
    }
}

/// Of two palette colours the one in the lower slot occurs first in the
/// stream, wherever their first occurrences are.
proof fn lemma_palette_order(colors: Seq<u16>)
    ensures
        forall|j: int, k: int, a: int, b: int|
            0 <= j < k < palette_of(colors).len() && #[trigger] first_seen_at(
                colors,
                palette_of(colors)[j],
                a,
            ) && #[trigger] first_seen_at(colors, palette_of(colors)[k], b) ==> a < b,
    decreases colors.len(),
{
    let q = palette_of(colors);
    lemma_palette_of(colors);
    if colors.len() != 0 {
        let before = colors.drop_last();
        let last = colors.last();
        let p = palette_of(before);
        lemma_palette_order(before);
        lemma_palette_of(before);
        assert forall|j: int, k: int, a: int, b: int|
            0 <= j < k < q.len() && #[trigger] first_seen_at(colors, q[j], a)
                && #[trigger] first_seen_at(colors, q[k], b) implies a < b by {
            // The colour in the lower slot was in the palette before the last pixel.
            assert(q[j] == p[j]);
            assert(before.contains(p[j]));
            let seen = before.index_of(p[j]);
            assert(colors[seen] == q[j]);
            assert(a <= seen);
            assert(first_seen_at(before, p[j], a)) by {
                assert forall|i: int| 0 <= i < a implies #[trigger] before[i] != p[j] by {
                    assert(before[i] == colors[i]);
                }
            }
            if k < p.len() {
                assert(q[k] == p[k]);
                assert(before.contains(p[k]));
                let seen_k = before.index_of(p[k]);
                assert(colors[seen_k] == q[k]);
                assert(b <= seen_k);
                assert(first_seen_at(before, p[k], b)) by {
                    assert forall|i: int| 0 <= i < b implies #[trigger] before[i] != p[k] by {
                        assert(before[i] == colors[i]);
                    }
                }
            } else {
                // The colour in the higher slot came in with the last pixel.
                assert(q[k] == last);
                assert(!p.contains(last));
                if b < before.len() {
                    assert(before[b] == last);
                    assert(p.contains(before[b]));
                }
            }
        }
    }
}

/// A colour that occurs in the stream has a first occurrence.
pub proof fn lemma_first_seen_exists(colors: Seq<u16>, color: u16)
    requires
        colors.contains(color),
    ensures
        exists|at: int| first_seen_at(colors, color, at),
    decreases colors.len(),
{
    let somewhere = colors.index_of(color);
    let before = colors.take(somewhere);
    if before.contains(color) {
        lemma_first_seen_exists(before, color);
        let at = choose|at: int| first_seen_at(before, color, at);
        assert(first_seen_at(colors, color, at)) by {
            assert(colors[at] == before[at]);
            assert forall|j: int| 0 <= j < at implies #[trigger] colors[j] != color by {
                assert(colors[j] == before[j]);
            }
        }
    } else {
        assert(first_seen_at(colors, color, somewhere)) by {
            assert forall|j: int| 0 <= j < somewhere implies #[trigger] colors[j] != color by {
                assert(before[j] == colors[j]);
                if colors[j] == color {
                    assert(before.contains(color));
                }
            }
        }
    }
}

/// What a pixel's index means: unless the pixel overflows, its index is
/// the slot of its colour; if it overflows, its colour has no slot and its
/// index is 0. A pixel overflows exactly if its colour is not in the
/// palette.
pub proof fn theorem_index_names_color(colors: Seq<u16>, i: int)
    requires
        0 <= i < colors.len(),
    ensures
        0 <= index_at(colors, i) < 8,
        indices_of(colors)[i] == index_at(colors, i),
        overflows_at(colors, i) <==> !palette_of(colors).contains(colors[i]),
        !overflows_at(colors, i) ==> index_at(colors, i) < palette_of(colors).len() && palette_of(
            colors,
        )[index_at(colors, i)] == colors[i],
        overflows_at(colors, i) ==> index_at(colors, i) == 0 && palette_of(colors).len() == 8,
{
    let before = colors.take(i);
    let upto = colors.take(i + 1);
    let p = palette_of(before);
    let q = palette_of(upto);
    let color = colors[i];
    assert(upto.drop_last() =~= before);
    assert(upto.last() == color);
    assert(q == intern_spec(p, color));
    lemma_palette_of(before);
    lemma_palette_of(colors);
    lemma_palette_grows(colors, i + 1);
    if overflows_at(colors, i) {
        lemma_full_palette_stays(colors, i);
    } else {
        let index = index_at(colors, i);
        assert(0 <= index < q.len() && q[index] == color) by {
            if p.contains(color) {
                assert(p[p.index_of(color)] == color);
            }
        }
        assert(palette_of(colors)[index] == q[index]);
    }
}

/// An image of at most eight distinct colours never overflows the palette:
/// every colour gets a slot, and every pixel's index names the slot of its
/// colour.
pub proof fn theorem_few_colors_fit(colors: Seq<u16>)
    requires
        colors.to_set().len() <= 8,
    ensures
        overflows_of(colors) == Seq::<int>::empty(),
        forall|i: int| 0 <= i < colors.len() ==> !overflows_at(colors, i),
        forall|i: int|
            0 <= i < colors.len() ==> palette_of(colors)[#[trigger] indices_of(colors)[i] as int]
                == colors[i],
        palette_of(colors).to_set() == colors.to_set(),
        palette_of(colors).len() == colors.to_set().len(),
{
    assert forall|i: int| 0 <= i < colors.len() implies !overflows_at(colors, i) by {
        if overflows_at(colors, i) {
            let p = palette_of(colors.take(i));
            let color = colors[i];
            let nine = p.push(color);
            lemma_palette_of(colors.take(i));
            assert(nine.no_duplicates());
            nine.unique_seq_to_set();
            vstd::seq_lib::seq_to_set_is_finite(colors);
            assert(nine.to_set().subset_of(colors.to_set())) by {
                assert forall|c: u16| nine.to_set().contains(c) implies colors.to_set().contains(
                    c,
                ) by {
                    let k = nine.index_of(c);
                    assert(nine[k] == c);
                    if k < p.len() {
                        assert(colors.take(i).contains(p[k]));
                        let at = colors.take(i).index_of(p[k]);
                        assert(colors[at] == c);
                    } else {
                        assert(colors[i] == c);
                    }
                }
            }
            vstd::set_lib::lemma_len_subset(nine.to_set(), colors.to_set());
        }
    }
    lemma_no_overflows(colors, colors.len());
    assert forall|i: int| 0 <= i < colors.len() implies palette_of(colors)[#[trigger] indices_of(
        colors,
    )[i] as int] == colors[i] by {
        theorem_index_names_color(colors, i);
    }
    let palette = palette_of(colors);
    lemma_palette_of(colors);
    assert(palette.to_set() =~= colors.to_set()) by {
        assert forall|c: u16| colors.to_set().contains(c) implies palette.to_set().contains(c) by {
            let i = colors.index_of(c);
            theorem_index_names_color(colors, i);
            assert(palette[index_at(colors, i)] == c);
        }
    }
    palette.unique_seq_to_set();
}

/// Where none of the first `n` pixels overflows, the list of overflows is
/// empty.
proof fn lemma_no_overflows(colors: Seq<u16>, n: nat)
    requires
        n <= colors.len(),
        forall|i: int| 0 <= i < n ==> !overflows_at(colors, i),
    ensures
        overflows_upto(colors, n) == Seq::<int>::empty(),
    decreases n,
{
    if n > 0 {
        lemma_no_overflows(colors, (n - 1) as nat);
    }
}

/// Overflow: the list of overflows holds exactly the pixels whose colour
/// found no slot, each once, in rising order; each of them has index 0.
pub proof fn theorem_overflows(colors: Seq<u16>)
    ensures
        forall|k: int|
            0 <= k < overflows_of(colors).len() ==> {
                let at = #[trigger] overflows_of(colors)[k];
                &&& 0 <= at < colors.len()
                &&& overflows_at(colors, at)
                &&& !palette_of(colors).contains(colors[at])
                &&& indices_of(colors)[at] == 0
            },
        forall|j: int, k: int|
            0 <= j < k < overflows_of(colors).len() ==> #[trigger] overflows_of(colors)[j]
                < #[trigger] overflows_of(colors)[k],
        forall|i: int|
            0 <= i < colors.len() && !palette_of(colors).contains(#[trigger] colors[i])
                ==> overflows_of(colors).contains(i),
{
    lemma_overflows_upto(colors, colors.len());
    let found = overflows_of(colors);
    assert forall|k: int| 0 <= k < found.len() implies {
        let at = #[trigger] found[k];
        &&& 0 <= at < colors.len()
        &&& overflows_at(colors, at)
        &&& !palette_of(colors).contains(colors[at])
        &&& indices_of(colors)[at] == 0
    } by {
        theorem_index_names_color(colors, found[k]);
    }
    assert forall|i: int|
        0 <= i < colors.len() && !palette_of(colors).contains(
            #[trigger] colors[i],
        ) implies found.contains(i) by {
        theorem_index_names_color(colors, i);
    }
}

/// The list of overflows among the first `n` pixels: its entries overflow,
/// lie below `n` and rise, and every overflow below `n` is in it.
pub proof fn lemma_overflows_upto(colors: Seq<u16>, n: nat)
    ensures
        forall|k: int|
            0 <= k < overflows_upto(colors, n).len() ==> 0 <= #[trigger] overflows_upto(colors, n)[k]
                < n && overflows_at(colors, overflows_upto(colors, n)[k]),
        forall|j: int, k: int|
            0 <= j < k < overflows_upto(colors, n).len() ==> #[trigger] overflows_upto(colors, n)[j]
                < #[trigger] overflows_upto(colors, n)[k],
        forall|i: int|
            0 <= i < n && #[trigger] overflows_at(colors, i) ==> overflows_upto(colors, n).contains(
                i,
            ),
        overflows_upto(colors, n).len() <= n,
    decreases n,
{
    if n > 0 {
        let fewer = overflows_upto(colors, (n - 1) as nat);
        let found = overflows_upto(colors, n);
        lemma_overflows_upto(colors, (n - 1) as nat);
        assert forall|i: int| 0 <= i < n && #[trigger] overflows_at(colors, i) implies found.contains(
            i,
        ) by {
            if i < n - 1 {
                let k = fewer.index_of(i);
                assert(fewer[k] == i);
                assert(found[k] == i);
            } else {
                assert(found[found.len() - 1] == i);
            }
        }
    }
}

/// What indexing a colour stream gives.
pub struct Indexed {
    /// The palette of the stream.
    pub palette: Palette,
    /// One palette index per pixel.
    pub indices: Vec<u8>,
    /// The positions of the pixels that overflowed the palette.
    pub overflows: Vec<usize>,
}

/// The positions as numbers.
pub open spec fn positions(overflows: Seq<usize>) -> Seq<int> {
    overflows.map_values(|at: usize| at as int)
}

/// Interns every colour of the stream in order. Gives the palette, the
/// index of every pixel, and the position of every pixel that overflowed
/// the palette and so got index 0.
pub fn index_pixels(colors: &[u16]) -> (indexed: Indexed)
    ensures
        indexed.palette@ == palette_of(colors@),
        indexed.indices@ == indices_of(colors@),
        positions(indexed.overflows@) == overflows_of(colors@),
        all_indices(indexed.indices@),
{
    let mut palette = Palette::new();
    let mut indices: Vec<u8> = Vec::new();
    let mut overflows: Vec<usize> = Vec::new();
    let mut i: usize = 0;
    proof {
        assert(colors@.take(0) =~= Seq::<u16>::empty());
        assert(positions(overflows@) =~= overflows_upto(colors@, 0));
    }
    while i < colors.len()
        invariant
            i <= colors.len(),
            palette@ == palette_of(colors@.take(i as int)),
            indices@.len() == i,
            forall|k: int| 0 <= k < i ==> #[trigger] indices@[k] == index_at(colors@, k),
            positions(overflows@) == overflows_upto(colors@, i as nat),
            all_indices(indices@),
        decreases colors.len() - i,
    {
        let color = colors[i];
        let ghost earlier = overflows@;
        proof {
            let upto = colors@.take(i + 1);
            assert(upto.drop_last() =~= colors@.take(i as int));
            assert(upto.last() == color);
        }
        let (index, overflow) = palette.intern(color);
        indices.push(index);
        if overflow {
            overflows.push(i);
            assert(positions(overflows@) =~= positions(earlier).push(i as int));
        }
        i += 1;
    }
    proof {
        assert(colors@.take(i as int) =~= colors@);
        assert(indices@ =~= indices_of(colors@));
    }
    Indexed { palette, indices, overflows }
}

} // verus!
