//! The order in which the foreground colors follow each other.

use crate::color::Color;
use vstd::prelude::*;

verus! {

/// The different colors of a palette, in the order in which they first occur.
pub open spec fn distinct(palette: Seq<Color>) -> Seq<Color>
    decreases palette.len(),
{
    if palette.len() == 0 {
        Seq::empty()
    } else {
        let before = distinct(palette.drop_last());
        if before.contains(palette.last()) {
            before
        } else {
            before.push(palette.last())
        }
    }
}

/// The index of the first place of a color, or the number of colors where it has
/// none.
pub open spec fn place(colors: Seq<Color>, color: Color) -> int
    decreases colors.len(),
{
    if colors.len() == 0 {
        0
    } else if colors[0] == color {
        0
    } else {
        1 + place(colors.drop_first(), color)
    }
}

/// The color that follows `current` among the different colors of a palette. The
/// first one follows the last, and any color that the palette does not hold.
pub open spec fn next_color(palette: Seq<Color>, current: Color) -> Color {
    let colors = distinct(palette);
    let k = place(colors, current) + 1;
    if k < colors.len() {
        colors[k]
    } else {
        colors[0]
    }
}

/// The color that comes after `steps` changes.
pub open spec fn color_after(palette: Seq<Color>, current: Color, steps: nat) -> Color
    decreases steps,
{
    if steps == 0 {
        current
    } else {
        next_color(palette, color_after(palette, current, (steps - 1) as nat))
    }
}

proof fn lemma_place(colors: Seq<Color>, color: Color, k: int)
    requires
        0 <= k <= colors.len(),
        forall|i: int| 0 <= i < k ==> #[trigger] colors[i] != color,
        k < colors.len() ==> colors[k] == color,
    ensures
        place(colors, color) == k,
    decreases colors.len(),
{
    if k > 0 {
        let rest = colors.drop_first();
        assert(colors[0] != color);
        assert forall|i: int| 0 <= i < k - 1 implies #[trigger] rest[i] != color by {
            assert(colors[i + 1] != color);
        }
        lemma_place(rest, color, k - 1);
    }
}

/// The index of the first place of a color, or the number of colors where it has
/// none.
fn place_of(colors: &Vec<Color>, color: Color) -> (k: usize)
    ensures
        k == place(colors@, color),
        k <= colors@.len(),
        k < colors@.len() <==> colors@.contains(color),
{
    let n: usize = colors.len();
    let mut k: usize = 0;
    while k < n
        invariant
            n == colors@.len(),
            k <= n,
            forall|i: int| 0 <= i < k ==> #[trigger] colors@[i] != color,
        decreases n - k,
    {
        if colors[k] == color {
            proof {
                lemma_place(colors@, color, k as int);
            }
            return k;
        }
        k = k + 1;
    }
    proof {
        lemma_place(colors@, color, n as int);
    }
    n
}

/// The different colors of a palette, in the order in which they first occur.
fn distinct_colors(palette: &Vec<Color>) -> (r: Vec<Color>)
    ensures
        r@ == distinct(palette@),
{
    let n: usize = palette.len();
    let mut r: Vec<Color> = Vec::new();
    let mut i: usize = 0;
    while i < n
        invariant
            n == palette@.len(),
            i <= n,
            r@ == distinct(palette@.take(i as int)),
        decreases n - i,
    {
        let c: Color = palette[i];
        assert(palette@.take(i + 1).drop_last() =~= palette@.take(i as int));
        assert(palette@.take(i + 1).last() == c);
        if place_of(&r, c) == r.len() {
            r.push(c);
        }
        i = i + 1;
    }
    assert(palette@.take(n as int) =~= palette@);
    r
}

/// The color that follows `current` among the different colors of a palette.
pub fn following(palette: &Vec<Color>, current: Color) -> (r: Color)
    requires
        palette@.len() > 0,
    ensures
        r == next_color(palette@, current),
{
    proof {
        lemma_distinct(palette@);
        assert(palette@.contains(palette@[0]));
    }
    let colors: Vec<Color> = distinct_colors(palette);
    let k: usize = place_of(&colors, current);
    if k < colors.len() && k + 1 < colors.len() {
        colors[k + 1]
    } else {
        colors[0]
    }
}

/// The different colors of a palette are its colors, each once.
pub proof fn lemma_distinct(palette: Seq<Color>)
    ensures
        distinct(palette).no_duplicates(),
        forall|c: Color| distinct(palette).contains(c) <==> #[trigger] palette.contains(c),
    decreases palette.len(),
{
    if palette.len() > 0 {
        let rest = palette.drop_last();
        let last = palette.last();
        lemma_distinct(rest);
        let (before, colors) = (distinct(rest), distinct(palette));
        assert forall|c: Color| colors.contains(c) <==> #[trigger] palette.contains(c) by {
            assert(rest.contains(c) <==> before.contains(c));
            if palette.contains(c) {
                let i = choose|i: int| 0 <= i < palette.len() && palette[i] == c;
                if i < rest.len() {
                    assert(rest[i] == c);
                    let j = choose|j: int| 0 <= j < before.len() && before[j] == c;
                    assert(colors[j] == c);
                } else if !before.contains(last) {
                    assert(colors[before.len() as int] == c);
                }
            }
            if colors.contains(c) {
                let j = choose|j: int| 0 <= j < colors.len() && colors[j] == c;
                if j < before.len() {
                    assert(before[j] == c);
                    let i = choose|i: int| 0 <= i < rest.len() && rest[i] == c;
                    assert(palette[i] == c);
                } else {
                    assert(palette[palette.len() - 1] == c);
                }
            }
        }
        assert forall|i: int, j: int|
            0 <= i < colors.len() && 0 <= j < colors.len() && i != j implies colors[i]
            != colors[j] by {
            if i < before.len() {
                assert(before.contains(before[i]));
            }
            if j < before.len() {
                assert(before.contains(before[j]));
            }
        }
    }
}

/// The next color is one of the palette, and another than the current one
/// wherever the palette has another.
pub proof fn lemma_next_differs(palette: Seq<Color>, current: Color)
    requires
        palette.len() > 0,
    ensures
        palette.contains(next_color(palette, current)),
        (exists|c: Color| palette.contains(c) && c != current) <==> next_color(palette, current)
            != current,
{
    let colors = distinct(palette);
    lemma_distinct(palette);
    assert(palette.contains(palette[0]));
    if palette.contains(current) {
        let k = choose|k: int| 0 <= k < colors.len() && colors[k] == current;
        lemma_place(colors, current, k);
        if k + 1 < colors.len() {
            assert(colors.contains(colors[k + 1]));
        } else {
            assert(colors.contains(colors[0]));
        }
        if colors.len() == 1 {
            assert forall|c: Color| palette.contains(c) implies c == current by {
                let j = choose|j: int| 0 <= j < colors.len() && colors[j] == c;
            }
        }
    } else {
        assert(!colors.contains(current));
        lemma_place(colors, current, colors.len() as int);
        assert(colors.contains(colors[0]));
    }
}

proof fn lemma_color_after(palette: Seq<Color>, k: int, steps: nat)
    requires
        0 <= k < distinct(palette).len(),
        steps <= distinct(palette).len(),
    ensures
        ({
            let colors = distinct(palette);
            let j = k + steps;
            color_after(palette, colors[k], steps) == if j < colors.len() {
                colors[j]
            } else {
                colors[j - colors.len()]
            }
        }),
    decreases steps,
{
    if steps > 0 {
        let colors = distinct(palette);
        lemma_color_after(palette, k, (steps - 1) as nat);
        lemma_distinct(palette);
        let j = k + steps - 1;
        lemma_place(
            colors,
            color_after(palette, colors[k], (steps - 1) as nat),
            if j < colors.len() {
                j
            } else {
                j - colors.len()
            },
        );
    }
}

/// The colors are cycled through: from a color of the palette, as many changes as
/// it has different colors bring each of them once, the first one last.
pub proof fn lemma_colors_cycle(palette: Seq<Color>, current: Color)
    requires
        palette.contains(current),
    ensures
        ({
            let n = distinct(palette).len();
            &&& color_after(palette, current, n) == current
            &&& forall|i: nat, j: nat|
                1 <= i < j <= n ==> #[trigger] color_after(palette, current, i)
                    != #[trigger] color_after(palette, current, j)
            &&& forall|c: Color| #[trigger]
                palette.contains(c) ==> exists|i: nat|
                    1 <= i <= n && #[trigger] color_after(palette, current, i) == c
        }),
{
    let colors = distinct(palette);
    let n = colors.len();
    lemma_distinct(palette);
    let k = choose|k: int| 0 <= k < n && colors[k] == current;
    lemma_color_after(palette, k, n);
    assert forall|i: nat, j: nat| 1 <= i < j <= n implies #[trigger] color_after(
        palette,
        current,
        i,
    ) != #[trigger] color_after(palette, current, j) by {
        lemma_color_after(palette, k, i);
        lemma_color_after(palette, k, j);
    }
    assert forall|c: Color| #[trigger] palette.contains(c) implies exists|i: nat|
        1 <= i <= n && #[trigger] color_after(palette, current, i) == c by {
        let j = choose|j: int| 0 <= j < n && colors[j] == c;
        let i = if j > k {
            (j - k) as nat
        } else {
            (j + n - k) as nat
        };
        lemma_color_after(palette, k, i);
        assert(color_after(palette, current, i) == c);
    }
}

proof fn lemma_distinct_prefix(palette: Seq<Color>, j: int)
    requires
        0 <= j <= palette.len(),
    ensures
        distinct(palette.take(j)).len() <= distinct(palette).len(),
        forall|i: int|
            0 <= i < distinct(palette.take(j)).len() ==> #[trigger] distinct(palette)[i] == distinct(
                palette.take(j),
            )[i],
    decreases palette.len(),
{
    if j < palette.len() {
        lemma_distinct_prefix(palette.drop_last(), j);
        assert(palette.drop_last().take(j) =~= palette.take(j));
    } else {
        assert(palette.take(j) =~= palette);
    }
}

proof fn lemma_distinct_step(palette: Seq<Color>, j: int)
    requires
        0 <= j < palette.len(),
    ensures
        distinct(palette.take(j + 1)) == if palette.take(j).contains(palette[j]) {
            distinct(palette.take(j))
        } else {
            distinct(palette.take(j)).push(palette[j])
        },
{
    assert(palette.take(j + 1).drop_last() =~= palette.take(j));
    lemma_distinct(palette.take(j));
}

proof fn lemma_distinct_stays(palette: Seq<Color>, i: int, j: int)
    requires
        0 <= i <= j <= palette.len(),
        forall|h: int| i <= h < j ==> palette.take(h).contains(#[trigger] palette[h]),
    ensures
        distinct(palette.take(j)) == distinct(palette.take(i)),
    decreases j - i,
{
    if i < j {
        lemma_distinct_stays(palette, i, j - 1);
        assert(palette.take(j - 1).contains(palette[j - 1]));
        lemma_distinct_step(palette, j - 1);
    }
}

proof fn lemma_first_place(palette: Seq<Color>, i: int)
    requires
        0 <= i < palette.len(),
        !palette.take(i).contains(palette[i]),
    ensures
        place(distinct(palette), palette[i]) == distinct(palette.take(i)).len(),
        distinct(palette.take(i)).len() < distinct(palette).len(),
        distinct(palette)[distinct(palette.take(i)).len() as int] == palette[i],
{
    let colors = distinct(palette);
    let k = distinct(palette.take(i)).len() as int;
    lemma_distinct_step(palette, i);
    lemma_distinct_prefix(palette, i + 1);
    assert(distinct(palette.take(i + 1))[k] == palette[i]);
    assert(colors[k] == palette[i]);
    lemma_distinct(palette);
    lemma_place(colors, palette[i], k);
}

/// The colors come in the order in which they first occur in the palette: after the
/// color that first occurs at `i` comes the one at `j`, where no color first occurs
/// between the two.
pub proof fn lemma_next_in_order(palette: Seq<Color>, i: int, j: int)
    requires
        0 <= i < j < palette.len(),
        !palette.take(i).contains(palette[i]),
        !palette.take(j).contains(palette[j]),
        forall|h: int| i < h < j ==> palette.take(h).contains(#[trigger] palette[h]),
    ensures
        next_color(palette, palette[i]) == palette[j],
{
    lemma_first_place(palette, i);
    lemma_first_place(palette, j);
    lemma_distinct_step(palette, i);
    lemma_distinct_stays(palette, i + 1, j);
}

/// After the color that first occurs at `i`, where no color first occurs later, the
/// first color of the palette comes again.
pub proof fn lemma_next_wraps(palette: Seq<Color>, i: int)
    requires
        0 <= i < palette.len(),
        !palette.take(i).contains(palette[i]),
        forall|h: int| i < h < palette.len() ==> palette.take(h).contains(#[trigger] palette[h]),
    ensures
        next_color(palette, palette[i]) == palette[0],
{
    lemma_first_place(palette, i);
    lemma_distinct_step(palette, i);
    lemma_distinct_stays(palette, i + 1, palette.len() as int);
    assert(palette.take(palette.len() as int) =~= palette);
    lemma_first_color(palette);
}

/// After a color that the palette does not hold, its first color comes.
pub proof fn lemma_next_from_outside(palette: Seq<Color>, current: Color)
    requires
        palette.len() > 0,
        !palette.contains(current),
    ensures
        next_color(palette, current) == palette[0],
{
    let colors = distinct(palette);
    lemma_distinct(palette);
    assert(!colors.contains(current));
    lemma_place(colors, current, colors.len() as int);
    lemma_first_color(palette);
}

proof fn lemma_first_color(palette: Seq<Color>)
    requires
        palette.len() > 0,
    ensures
        distinct(palette)[0] == palette[0],
{
    lemma_first_place(palette, 0);
    assert(palette.take(0) =~= Seq::<Color>::empty());
}

} // verus!
