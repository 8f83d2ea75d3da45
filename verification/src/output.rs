//! The outputs that the wallpaper is shown on.

use crate::curve::Scale;
use vstd::prelude::*;

verus! {

/// The surface that the wallpaper has on an output.
#[derive(Clone, Copy, Debug, PartialEq, Eq)]
pub struct Surface {
    /// What the surface is known by.
    pub id: u32,
    pub width: u32,
    pub height: u32,
    /// Whether the compositor has given the surface its size.
    pub configured: bool,
    /// The width and height of the renderer for the surface, if there is one.
    pub renderer: Option<(u32, u32)>,
}

/// An output, with its surface once there is one.
#[derive(Clone, Copy, Debug, PartialEq, Eq)]
pub struct Slot {
    /// What the output is known by.
    pub output: u32,
    pub surface: Option<Surface>,
}

impl Slot {
    /// Whether the output has a surface that the compositor has given its size.
    pub open spec fn configured(self) -> bool {
        self.surface is Some && self.surface->0.configured
    }

    /// Whether the output has a surface with a renderer.
    pub open spec fn rendered(self) -> bool {
        self.surface is Some && self.surface->0.renderer is Some
    }

    /// Whether the renderer, if there is one, has the size of the surface.
    pub open spec fn renderer_fits(self) -> bool {
        self.rendered() ==> self.surface->0.renderer == Some(
            (self.surface->0.width, self.surface->0.height),
        )
    }

    /// Whether the pattern is drawn on the output.
    pub open spec fn drawn(self) -> bool {
        self.configured() && self.rendered()
    }

    /// Whether the surface, once the compositor has given it its size, has a
    /// renderer and no side of length 0.
    pub open spec fn settled(self) -> bool {
        self.configured() ==> self.rendered() && self.surface->0.width >= 1
            && self.surface->0.height >= 1
    }

    /// Whether the surface on the output is the one known by `id`.
    pub open spec fn has_surface(self, id: u32) -> bool {
        self.surface is Some && self.surface->0.id == id
    }
}

/// All outputs, in the order in which they appeared.
pub struct Outputs {
    slots: Vec<Slot>,
}

impl View for Outputs {
    type V = Seq<Slot>;

    closed spec fn view(&self) -> Seq<Slot> {
        self.slots@
    }
}

/// The unsigned number with the bits of `size`.
pub open spec fn unsigned(size: i32) -> int {
    if size < 0 {
        size + 0x1_0000_0000
    } else {
        size as int
    }
}

/// The size to ask for on an output: its logical size where that is known, and
/// 1920 by 1080 where it is not.
pub fn initial_size(logical_size: Option<(i32, i32)>) -> (r: (u32, u32))
    ensures
        logical_size is Some ==> r.0 == unsigned((logical_size->0).0) && r.1 == unsigned(
            (logical_size->0).1,
        ),
        logical_size is None ==> r == (1920u32, 1080u32),
{
    match logical_size {
        Some((w, h)) => {
            assert((w as u32) == if w < 0 {
                w + 0x1_0000_0000
            } else {
                w as int
            }) by (bit_vector);
            assert((h as u32) == if h < 0 {
                h + 0x1_0000_0000
            } else {
                h as int
            }) by (bit_vector);
            (
                #[verifier::truncate]
                (w as u32),
                #[verifier::truncate]
                (h as u32),
            )
        },
        None => (1920, 1080),
    }
}

/// The index of the first slot for `output`, or the number of slots where there
/// is none.
pub open spec fn slot_of(slots: Seq<Slot>, output: u32) -> int
    decreases slots.len(),
{
    if slots.len() == 0 {
        0
    } else if slots[0].output == output {
        0
    } else {
        1 + slot_of(slots.drop_first(), output)
    }
}

proof fn lemma_slot_of(slots: Seq<Slot>, output: u32, k: int)
    requires
        0 <= k <= slots.len(),
        forall|i: int| 0 <= i < k ==> (#[trigger] slots[i]).output != output,
        k < slots.len() ==> slots[k].output == output,
    ensures
        slot_of(slots, output) == k,
    decreases slots.len(),
{
    if k > 0 {
        let rest = slots.drop_first();
        assert(slots[0].output != output);
        assert forall|i: int| 0 <= i < k - 1 implies (#[trigger] rest[i]).output != output by {
            assert(slots[i + 1].output != output);
        }
        lemma_slot_of(rest, output, k - 1);
    }
}

/// The index of the first slot whose surface is known by `id`, or the number of
/// slots where there is none.
pub open spec fn slot_with_surface(slots: Seq<Slot>, id: u32) -> int
    decreases slots.len(),
{
    if slots.len() == 0 {
        0
    } else if slots[0].has_surface(id) {
        0
    } else {
        1 + slot_with_surface(slots.drop_first(), id)
    }
}

proof fn lemma_slot_with_surface(slots: Seq<Slot>, id: u32, k: int)
    requires
        0 <= k <= slots.len(),
        forall|i: int| 0 <= i < k ==> !(#[trigger] slots[i]).has_surface(id),
        k < slots.len() ==> slots[k].has_surface(id),
    ensures
        slot_with_surface(slots, id) == k,
    decreases slots.len(),
{
    if k > 0 {
        let rest = slots.drop_first();
        assert(!slots[0].has_surface(id));
        assert forall|i: int| 0 <= i < k - 1 implies !(#[trigger] rest[i]).has_surface(id) by {
            assert(!slots[i + 1].has_surface(id));
        }
        lemma_slot_with_surface(rest, id, k - 1);
    }
}

/// The slots after a surface is made for `output`: it goes to the first slot of
/// that output, or with a new slot to the end.
pub open spec fn surface_placed(slots: Seq<Slot>, output: u32, surface: Surface) -> Seq<Slot> {
    let slot = Slot { output, surface: Some(surface) };
    let k = slot_of(slots, output);
    if k < slots.len() {
        slots.update(k, slot)
    } else {
        slots.push(slot)
    }
}

/// The length of a side, which is never shorter than one pixel.
pub open spec fn at_least_one(length: u32) -> u32 {
    if length < 1 {
        1
    } else {
        length
    }
}

/// The length of a side, which is never shorter than one pixel.
pub(crate) fn side(length: u32) -> (r: u32)
    ensures
        r == at_least_one(length),
        length >= 1 ==> r == length,
        length == 0 ==> r == 1,
{
    if length < 1 {
        1
    } else {
        length
    }
}

/// The surface after the compositor has given it a size. No side is shorter than
/// one pixel. A renderer of another size is given up.
pub open spec fn resized(surface: Surface, width: u32, height: u32) -> Surface {
    let (width, height) = (at_least_one(width), at_least_one(height));
    Surface {
        width,
        height,
        configured: true,
        renderer: if surface.renderer == Some((width, height)) {
            surface.renderer
        } else {
            None
        },
        ..surface
    }
}

/// The slots after the compositor has given the surface known by `id` a size.
pub open spec fn surface_resized(
    slots: Seq<Slot>,
    id: u32,
    width: u32,
    height: u32,
) -> Seq<Slot> {
    let k = slot_with_surface(slots, id);
    if k < slots.len() {
        slots.update(
            k,
            Slot { surface: Some(resized(slots[k].surface->0, width, height)), ..slots[k] },
        )
    } else {
        slots
    }
}

/// The slots after the surface of slot `k` got a renderer of its size.
pub open spec fn renderer_made(slots: Seq<Slot>, k: int) -> Seq<Slot> {
    let slot = slots[k];
    let surface = slot.surface->0;
    let renderer = Some((surface.width, surface.height));
    slots.update(k, Slot { surface: Some(Surface { renderer, ..surface }), ..slot })
}

/// Whether every renderer has the size of the surface that it is for.
pub open spec fn renderers_fit(slots: Seq<Slot>) -> bool {
    forall|i: int| 0 <= i < slots.len() ==> (#[trigger] slots[i]).renderer_fits()
}

/// Whether every configured output has a renderer and no side of length 0.
pub open spec fn settled(slots: Seq<Slot>) -> bool {
    forall|i: int| 0 <= i < slots.len() ==> (#[trigger] slots[i]).settled()
}

/// Whether surface `a` is larger than surface `b`: it has the greater area, or
/// the greater width where the areas are equal.
pub open spec fn larger(a: Surface, b: Surface) -> bool {
    let (area_a, area_b) = (a.width * a.height, b.width * b.height);
    area_a > area_b || area_a == area_b && a.width > b.width
}

/// The largest surface of a configured output, if there is one.
pub open spec fn largest(slots: Seq<Slot>) -> Option<Surface>
    decreases slots.len(),
{
    if slots.len() == 0 {
        None
    } else {
        let rest = largest(slots.drop_last());
        let last = slots.last();
        if last.configured() && (rest is None || larger(last.surface->0, rest->0)) {
            last.surface
        } else {
            rest
        }
    }
}

/// Whether surface `a` is larger than surface `b`.
fn is_larger(a: &Surface, b: &Surface) -> (r: bool)
    ensures
        r == larger(*a, *b),
{
    proof {
        lemma_area(*a);
        lemma_area(*b);
    }
    let area_a: u64 = a.width as u64 * a.height as u64;
    let area_b: u64 = b.width as u64 * b.height as u64;
    area_a > area_b || (area_a == area_b && a.width > b.width)
}

/// The area of a surface fits in 64 bits, and is 0 only where a side is.
proof fn lemma_area(s: Surface)
    ensures
        0 <= s.width * s.height <= u64::MAX,
        s.width * s.height > 0 <==> s.width > 0 && s.height > 0,
{
    let (w, h) = (s.width as int, s.height as int);
    assert(0 <= w * h <= 0xffff_ffff * 0xffff_ffff) by (nonlinear_arith)
        requires
            0 <= w <= 0xffff_ffff,
            0 <= h <= 0xffff_ffff,
    ;
    assert(w * h > 0 <==> w > 0 && h > 0) by (nonlinear_arith)
        requires
            0 <= w,
            0 <= h,
    ;
}

/// The scale along an axis of length `extent` on a screen whose shorter side is
/// `least`: four fifths of `least / extent`.
pub open spec fn axis_scale(least: int, extent: int) -> Scale {
    Scale { num: (4 * least) as u64, den: (5 * extent) as u64 }
}

/// The scales along both axes for a screen of a given size.
pub open spec fn screen_scales(width: int, height: int) -> (Scale, Scale) {
    let least = if width < height {
        width
    } else {
        height
    };
    (axis_scale(least, width), axis_scale(least, height))
}

/// The scales along both axes for the largest configured output, if there is one
/// with sides of some length.
pub open spec fn output_scales(slots: Seq<Slot>) -> Option<(Scale, Scale)> {
    match largest(slots) {
        Some(s) if s.width > 0 && s.height > 0 => Some(
            screen_scales(s.width as int, s.height as int),
        ),
        _ => None,
    }
}

/// The indices of the slots that satisfy `f`, in ascending order.
pub open spec fn slots_where(slots: Seq<Slot>, f: spec_fn(Slot) -> bool) -> Seq<usize>
    decreases slots.len(),
{
    if slots.len() == 0 {
        Seq::empty()
    } else {
        let found = slots_where(slots.drop_last(), f);
        if f(slots.last()) {
            found.push((slots.len() - 1) as usize)
        } else {
            found
        }
    }
}

/// The slots that the pattern is drawn on.
pub open spec fn drawn(slots: Seq<Slot>) -> Seq<usize> {
    slots_where(slots, |slot: Slot| slot.drawn())
}

/// The slots that have a renderer.
pub open spec fn rendered(slots: Seq<Slot>) -> Seq<usize> {
    slots_where(slots, |slot: Slot| slot.rendered())
}

impl Outputs {
    /// There are no more outputs than an index can tell apart.
    pub proof fn lemma_len(&self)
        ensures
            self@.len() <= usize::MAX,
    {
        assert(self.slots@.len() == self.slots.len());
    }

    /// No outputs.
    pub fn new() -> (r: Self)
        ensures
            r@ == Seq::<Slot>::empty(),
            renderers_fit(r@),
            settled(r@),
    {
        Outputs { slots: Vec::new() }
    }

    /// Takes in an output that has appeared.
    pub fn new_output(&mut self, output: u32)
        ensures
            final(self)@ == old(self)@.push(Slot { output, surface: None }),
            renderers_fit(old(self)@) ==> renderers_fit(final(self)@),
            settled(old(self)@) ==> settled(final(self)@),
    {
        self.slots.push(Slot { output, surface: None });
    }

    /// Records the surface that has been made for an output, and returns the
    /// index of its slot.
    pub fn place_surface(&mut self, output: u32, id: u32, width: u32, height: u32) -> (k: usize)
        ensures
            final(self)@ == surface_placed(
                old(self)@,
                output,
                (Surface { id, width, height, configured: false, renderer: None }),
            ),
            k == slot_of(old(self)@, output),
            renderers_fit(old(self)@) ==> renderers_fit(final(self)@),
            settled(old(self)@) ==> settled(final(self)@),
    {
        let surface: Surface = Surface { id, width, height, configured: false, renderer: None };
        let slot: Slot = Slot { output, surface: Some(surface) };
        let n: usize = self.slots.len();
        let mut k: usize = 0;
        while k < n
            invariant
                slot == (Slot { output, surface: Some(surface) }),
                surface == (Surface { id, width, height, configured: false, renderer: None }),
                n == self.slots@.len(),
                k <= n,
                self.slots@ == old(self).slots@,
                forall|i: int| 0 <= i < k ==> (#[trigger] self.slots@[i]).output != output,
            decreases n - k,
        {
            if self.slots[k].output == output {
                proof {
                    lemma_slot_of(self.slots@, output, k as int);
                }
                self.slots.set(k, slot);
                return k;
            }
            k = k + 1;
        }
        proof {
            lemma_slot_of(self.slots@, output, n as int);
        }
        self.slots.push(slot);
        n
    }

    /// Drops an output that has gone.
    pub fn output_destroyed(&mut self, output: u32)
        ensures
            final(self)@ == old(self)@.filter(|slot: Slot| slot.output != output),
            forall|i: int| 0 <= i < final(self)@.len() ==> (#[trigger] final(self)@[i]).output != output,
            forall|i: int|
                0 <= i < old(self)@.len() && (#[trigger] old(self)@[i]).output != output ==>
                    final(self)@.contains(old(self)@[i]),
            renderers_fit(old(self)@) ==> renderers_fit(final(self)@),
            settled(old(self)@) ==> settled(final(self)@),
    {
        let n: usize = self.slots.len();
        let ghost kept = |slot: Slot| slot.output != output;
        let mut rest: Vec<Slot> = Vec::new();
        let mut i: usize = 0;
        assert(self.slots@.take(0).filter(kept) =~= rest@) by {
            reveal(Seq::filter);
        }
        while i < n
            invariant
                n == self.slots@.len(),
                i <= n,
                self.slots@ == old(self).slots@,
                kept == (|slot: Slot| slot.output != output),
                rest@ == self.slots@.take(i as int).filter(kept),
            decreases n - i,
        {
            let slot: Slot = self.slots[i];
            assert(self.slots@.take(i + 1).drop_last() =~= self.slots@.take(i as int));
            assert(self.slots@.take(i + 1).last() == slot);
            proof {
                reveal(Seq::filter);
            }
            if slot.output != output {
                rest.push(slot);
            }
            i = i + 1;
        }
        assert(self.slots@.take(n as int) =~= self.slots@);
        proof {
            lemma_kept_without(self.slots@, output);
            lemma_others_kept(self.slots@, output);
        }
        self.slots = rest;
    }

    /// Records the size that the compositor has given to a surface. The answer
    /// is the index of its slot, if there is such a surface. The outputs are
    /// settled again once the surface has a renderer of its size.
    pub fn configure(&mut self, id: u32, width: u32, height: u32) -> (found: Option<usize>)
        ensures
            final(self)@ == surface_resized(old(self)@, id, width, height),
            found is Some <==> slot_with_surface(old(self)@, id) < old(self)@.len(),
            found is Some ==> found->0 == slot_with_surface(old(self)@, id)
                && old(self)@[found->0 as int].has_surface(id),
            renderers_fit(old(self)@) ==> renderers_fit(final(self)@),
            settled(old(self)@) ==> settled(
                if found is Some {
                    renderer_made(final(self)@, found->0 as int)
                } else {
                    final(self)@
                },
            ),
    {
        let n: usize = self.slots.len();
        let mut k: usize = 0;
        while k < n
            invariant
                n == self.slots@.len(),
                k <= n,
                self.slots@ == old(self).slots@,
                forall|i: int| 0 <= i < k ==> !(#[trigger] self.slots@[i]).has_surface(id),
            decreases n - k,
        {
            let slot: Slot = self.slots[k];
            if let Some(surface) = slot.surface {
                if surface.id == id {
                    proof {
                        lemma_slot_with_surface(self.slots@, id, k as int);
                    }
                    let new_w: u32 = side(width);
                    let new_h: u32 = side(height);
                    let renderer: Option<(u32, u32)> = match surface.renderer {
                        Some((w, h)) if w == new_w && h == new_h => Some((w, h)),
                        _ => None,
                    };
                    let after: Surface = Surface {
                        width: new_w,
                        height: new_h,
                        configured: true,
                        renderer,
                        ..surface
                    };
                    self.slots.set(k, Slot { surface: Some(after), ..slot });
                    return Some(k);
                }
            }
            k = k + 1;
        }
        proof {
            lemma_slot_with_surface(self.slots@, id, n as int);
        }
        None
    }

    /// Notes that the surface of a slot gets a renderer, where it has none. The
    /// answer is the size of the renderer to make, if one is to be made.
    pub fn init_renderer(&mut self, k: usize) -> (size: Option<(u32, u32)>)
        ensures
            size is Some <==> k < old(self)@.len() && old(self)@[k as int].surface is Some
                && !old(self)@[k as int].rendered(),
            size is Some ==> {
                let slot = old(self)@[k as int];
                &&& size->0 == (slot.surface->0.width, slot.surface->0.height)
                &&& final(self)@ == renderer_made(old(self)@, k as int)
            },
            size is None ==> final(self)@ == old(self)@,
            renderers_fit(old(self)@) ==> renderers_fit(final(self)@),
            settled(old(self)@) ==> settled(final(self)@),
    {
        if k < self.slots.len() {
            let slot: Slot = self.slots[k];
            if let Some(surface) = slot.surface {
                if surface.renderer.is_none() {
                    let size: Option<(u32, u32)> = Some((surface.width, surface.height));
                    let after: Surface = Surface { renderer: size, ..surface };
                    self.slots.set(k, Slot { surface: Some(after), ..slot });
                    return size;
                }
            }
        }
        None
    }

    /// The slots that are faded, drawn on and presented in a frame.
    pub fn drawn_slots(&self) -> (found: Vec<usize>)
        ensures
            found@ == drawn(self@),
    {
        let n: usize = self.slots.len();
        let mut found: Vec<usize> = Vec::new();
        let mut i: usize = 0;
        while i < n
            invariant
                n == self.slots@.len(),
                i <= n,
                found@ == drawn(self.slots@.take(i as int)),
            decreases n - i,
        {
            assert(self.slots@.take(i + 1).drop_last() =~= self.slots@.take(i as int));
            let shown: bool = match self.slots[i].surface {
                Some(surface) => surface.configured && surface.renderer.is_some(),
                None => false,
            };
            if shown {
                found.push(i);
            }
            i = i + 1;
        }
        assert(self.slots@.take(n as int) =~= self.slots@);
        found
    }

    /// The slots that are cleared when a new pattern begins.
    pub fn rendered_slots(&self) -> (found: Vec<usize>)
        ensures
            found@ == rendered(self@),
    {
        let n: usize = self.slots.len();
        let mut found: Vec<usize> = Vec::new();
        let mut i: usize = 0;
        while i < n
            invariant
                n == self.slots@.len(),
                i <= n,
                found@ == rendered(self.slots@.take(i as int)),
            decreases n - i,
        {
            assert(self.slots@.take(i + 1).drop_last() =~= self.slots@.take(i as int));
            let ready: bool = match self.slots[i].surface {
                Some(surface) => surface.renderer.is_some(),
                None => false,
            };
            if ready {
                found.push(i);
            }
            i = i + 1;
        }
        assert(self.slots@.take(n as int) =~= self.slots@);
        found
    }

    /// The scales along both axes that keep the pattern square on the largest
    /// configured output, if there is one.
    pub fn scales(&self) -> (r: Option<(Scale, Scale)>)
        ensures
            r == output_scales(self@),
            r is Some ==> (r->0).0.num < 0x4_0000_0000 && 0 < (r->0).0.den < 0x5_0000_0000,
            r is Some ==> (r->0).1.num < 0x4_0000_0000 && 0 < (r->0).1.den < 0x5_0000_0000,
    {
        let n: usize = self.slots.len();
        let mut best: Option<Surface> = None;
        let mut i: usize = 0;
        while i < n
            invariant
                n == self.slots@.len(),
                i <= n,
                best == largest(self.slots@.take(i as int)),
            decreases n - i,
        {
            assert(self.slots@.take(i + 1).drop_last() =~= self.slots@.take(i as int));
            if let Some(surface) = self.slots[i].surface {
                let replaces: bool = match best {
                    Some(b) => is_larger(&surface, &b),
                    None => true,
                };
                if surface.configured && replaces {
                    best = Some(surface);
                }
            }
            i = i + 1;
        }
        assert(self.slots@.take(n as int) =~= self.slots@);
        match best {
            Some(s) if s.width > 0 && s.height > 0 => {
                let least: u64 = if s.width < s.height {
                    s.width as u64
                } else {
                    s.height as u64
                };
                let scale_x: Scale = Scale { num: 4 * least, den: 5 * (s.width as u64) };
                let scale_y: Scale = Scale { num: 4 * least, den: 5 * (s.height as u64) };
                Some((scale_x, scale_y))
            },
            _ => None,
        }
    }
}

/// The slots found are those that satisfy `f`, each once, in ascending order.
pub proof fn lemma_slots_where(slots: Seq<Slot>, f: spec_fn(Slot) -> bool)
    requires
        slots.len() <= usize::MAX,
    ensures
        ({
            let found = slots_where(slots, f);
            &&& forall|i: int, j: int| 0 <= i < j < found.len() ==> found[i] < found[j]
            &&& forall|i: int|
                0 <= i < found.len() ==> (#[trigger] found[i]) < slots.len() && f(
                    slots[found[i] as int],
                )
            &&& forall|k: int|
                0 <= k < slots.len() && f(#[trigger] slots[k]) ==> found.contains(k as usize)
        }),
    decreases slots.len(),
{
    if slots.len() > 0 {
        let rest = slots.drop_last();
        let last = slots.len() - 1;
        lemma_slots_where(rest, f);
        let before = slots_where(rest, f);
        let found = slots_where(slots, f);
        assert forall|i: int| 0 <= i < found.len() implies (#[trigger] found[i]) < slots.len() && f(
            slots[found[i] as int],
        ) by {
            if i < before.len() {
                assert(before[i] < rest.len());
                assert(f(rest[before[i] as int]));
            }
        }
        assert forall|k: int| 0 <= k < slots.len() && f(#[trigger] slots[k]) implies found.contains(
            k as usize,
        ) by {
            if k < last {
                assert(f(rest[k]));
                let j = choose|j: int| 0 <= j < before.len() && before[j] == k as usize;
                assert(found[j] == k as usize);
            } else {
                assert(found[before.len() as int] == k as usize);
            }
        }
        assert forall|i: int, j: int| 0 <= i < j < found.len() implies found[i] < found[j] by {
            assert(before[i] < rest.len());
        }
    }
}

/// The largest surface is that of a configured output, and no configured output
/// has a larger one. There is none only where no output is configured.
pub proof fn lemma_largest(slots: Seq<Slot>)
    ensures
        largest(slots) is Some ==> exists|i: int|
            0 <= i < slots.len() && (#[trigger] slots[i]).configured() && slots[i].surface
                == largest(slots),
        forall|i: int|
            0 <= i < slots.len() && (#[trigger] slots[i]).configured() ==> largest(slots) is Some
                && !larger(slots[i].surface->0, largest(slots)->0),
    decreases slots.len(),
{
    if slots.len() > 0 {
        let rest = slots.drop_last();
        let last = slots.len() - 1;
        lemma_largest(rest);
        if largest(slots) is Some {
            if largest(slots) == largest(rest) {
                let i = choose|i: int|
                    0 <= i < rest.len() && (#[trigger] rest[i]).configured() && rest[i].surface
                        == largest(rest);
                assert(slots[i].configured());
            } else {
                assert(slots[last].configured());
            }
        }
        assert forall|i: int| 0 <= i < slots.len() && (#[trigger] slots[i]).configured() implies
            largest(slots) is Some && !larger(slots[i].surface->0, largest(slots)->0) by {
            if i < last {
                assert(rest[i].configured());
            }
        }
    }
}

/// The size of the largest surface does not depend on the order of the outputs:
/// a configured output that no other exceeds has that size.
pub proof fn lemma_largest_size(slots: Seq<Slot>, k: int)
    requires
        0 <= k < slots.len(),
        slots[k].configured(),
        forall|i: int|
            0 <= i < slots.len() && (#[trigger] slots[i]).configured() ==> !larger(
                slots[i].surface->0,
                slots[k].surface->0,
            ),
    ensures
        largest(slots) is Some,
        largest(slots)->0.width == slots[k].surface->0.width,
        slots[k].surface->0.width > 0 ==> largest(slots)->0.height == slots[k].surface->0.height,
        slots[k].surface->0.width > 0 && slots[k].surface->0.height > 0 ==> output_scales(slots)
            == Some(
            screen_scales(
                slots[k].surface->0.width as int,
                slots[k].surface->0.height as int,
            ),
        ),
{
    lemma_largest(slots);
    let (a, b) = (slots[k].surface->0, largest(slots)->0);
    let (w, h, g) = (a.width as int, a.height as int, b.height as int);
    assert(w > 0 && w * h == w * g ==> h == g) by (nonlinear_arith);
}

/// Where some configured output has sides of some length, there are scales.
pub proof fn lemma_scales_found(slots: Seq<Slot>, k: int)
    requires
        0 <= k < slots.len(),
        slots[k].configured(),
        slots[k].surface->0.width > 0,
        slots[k].surface->0.height > 0,
    ensures
        output_scales(slots) is Some,
{
    lemma_largest(slots);
    lemma_area(slots[k].surface->0);
    lemma_area(largest(slots)->0);
}

/// Where every renderer has the size of its surface, the pattern is drawn at the
/// full resolution of every output that it is drawn on.
pub proof fn lemma_drawn_at_full_size(slots: Seq<Slot>, k: int)
    requires
        renderers_fit(slots),
        0 <= k < slots.len(),
        slots[k].drawn(),
    ensures
        slots[k].surface->0.renderer == Some(
            (slots[k].surface->0.width, slots[k].surface->0.height),
        ),
{
    assert(slots[k].renderer_fits());
}

/// Where the outputs are settled, the pattern is drawn on exactly the configured
/// ones, and there are scales exactly where one is configured.
pub proof fn lemma_settled(slots: Seq<Slot>)
    requires
        settled(slots),
    ensures
        forall|i: int|
            0 <= i < slots.len() ==> ((#[trigger] slots[i]).drawn() <==> slots[i].configured()),
        output_scales(slots) is Some <==> exists|i: int|
            0 <= i < slots.len() && (#[trigger] slots[i]).configured(),
{
    assert forall|i: int| 0 <= i < slots.len() implies ((#[trigger] slots[i]).drawn()
        <==> slots[i].configured()) by {
        assert(slots[i].settled());
    }
    lemma_largest(slots);
    if exists|i: int| 0 <= i < slots.len() && (#[trigger] slots[i]).configured() {
        let k = choose|i: int| 0 <= i < slots.len() && (#[trigger] slots[i]).configured();
        assert(slots[k].settled());
        lemma_scales_found(slots, k);
    }
}

proof fn lemma_others_kept(slots: Seq<Slot>, output: u32)
    ensures
        ({
            let rest = slots.filter(|slot: Slot| slot.output != output);
            &&& forall|i: int| 0 <= i < rest.len() ==> (#[trigger] rest[i]).output != output
            &&& forall|i: int|
                0 <= i < slots.len() && (#[trigger] slots[i]).output != output ==> rest.contains(
                    slots[i],
                )
        }),
{
    let kept = |slot: Slot| slot.output != output;
    let rest = slots.filter(kept);
    assert forall|i: int| 0 <= i < rest.len() implies (#[trigger] rest[i]).output != output by {
        slots.lemma_filter_pred(kept, i);
    }
    assert forall|i: int| 0 <= i < slots.len() && (#[trigger] slots[i]).output
        != output implies rest.contains(slots[i]) by {
        slots.lemma_filter_contains(kept, i);
    }
}

proof fn lemma_kept_without(slots: Seq<Slot>, output: u32)
    ensures
        renderers_fit(slots) ==> renderers_fit(slots.filter(|slot: Slot| slot.output != output)),
        settled(slots) ==> settled(slots.filter(|slot: Slot| slot.output != output)),
{
    let kept = |slot: Slot| slot.output != output;
    let rest = slots.filter(kept);
    assert forall|i: int| 0 <= i < rest.len() implies slots.contains(#[trigger] rest[i]) by {
        assert(rest.contains(rest[i]));
        slots.lemma_filter_contains_rev(kept, rest[i]);
    }
}

/// The scales keep the pattern square: multiplied by the length of its axis, each
/// comes to four fifths of the shorter side of the screen. So the scale is four
/// fifths along the shorter axis, and no more along the longer.
pub proof fn lemma_pattern_square(width: u32, height: u32)
    requires
        0 < width,
        0 < height,
    ensures
        ({
            let (x, y) = screen_scales(width as int, height as int);
            let least = if width < height {
                width
            } else {
                height
            };
            &&& x.den > 0
            &&& y.den > 0
            &&& 5 * (x.num * width) == 4 * (least * x.den)
            &&& 5 * (y.num * height) == 4 * (least * y.den)
            &&& width <= height ==> 5 * x.num == 4 * x.den
            &&& height <= width ==> 5 * y.num == 4 * y.den
            &&& 5 * x.num <= 4 * x.den
            &&& 5 * y.num <= 4 * y.den
        }),
{
    let (x, y) = screen_scales(width as int, height as int);
    let least = if width < height {
        width
    } else {
        height
    };
    assert(5 * ((4 * least) * width) == 4 * (least * (5 * width))) by (nonlinear_arith);
    assert(5 * ((4 * least) * height) == 4 * (least * (5 * height))) by (nonlinear_arith);
    assert(x.num == 4 * least && x.den == 5 * width);
    assert(y.num == 4 * least && y.den == 5 * height);
}

/// An output that goes again leaves no trace: the slots are those from before it
/// appeared, with or without a surface made for it meanwhile.
pub proof fn lemma_output_gone(slots: Seq<Slot>, output: u32, surface: Surface)
    requires
        forall|i: int| 0 <= i < slots.len() ==> (#[trigger] slots[i]).output != output,
    ensures
        ({
            let kept = |slot: Slot| slot.output != output;
            let appeared = slots.push(Slot { output, surface: None });
            &&& appeared.filter(kept) == slots
            &&& surface_placed(appeared, output, surface).filter(kept) == slots
        }),
{
    let kept = |slot: Slot| slot.output != output;
    let appeared = slots.push(Slot { output, surface: None });
    let placed = slots.push(Slot { output, surface: Some(surface) });
    lemma_slot_of(appeared, output, slots.len() as int);
    assert(surface_placed(appeared, output, surface) =~= placed);
    lemma_all_kept(slots, output);
    assert(appeared.drop_last() =~= slots);
    assert(placed.drop_last() =~= slots);
    reveal(Seq::filter);
}

proof fn lemma_all_kept(slots: Seq<Slot>, output: u32)
    requires
        forall|i: int| 0 <= i < slots.len() ==> (#[trigger] slots[i]).output != output,
    ensures
        slots.filter(|slot: Slot| slot.output != output) == slots,
    decreases slots.len(),
{
    reveal(Seq::filter);
    if slots.len() > 0 {
        let rest = slots.drop_last();
        assert forall|i: int| 0 <= i < rest.len() implies (#[trigger] rest[i]).output != output by {
            assert(slots[i].output != output);
        }
        lemma_all_kept(rest, output);
        assert(slots.last().output != output);
        assert(rest.push(slots.last()) =~= slots);
    }
}

/// Every output that is drawn on is also cleared when a new pattern begins.
pub proof fn lemma_drawn_is_cleared(slots: Seq<Slot>)
    requires
        slots.len() <= usize::MAX,
    ensures
        forall|i: int| 0 <= i < drawn(slots).len() ==> rendered(slots).contains(#[trigger] drawn(slots)[i]),
{
    lemma_slots_where(slots, |slot: Slot| slot.drawn());
    lemma_slots_where(slots, |slot: Slot| slot.rendered());
    assert forall|i: int| 0 <= i < drawn(slots).len() implies rendered(slots).contains(
        #[trigger] drawn(slots)[i],
    ) by {
        assert(slots[drawn(slots)[i] as int].rendered());
    }
}

/// The size that the compositor gives a surface is the size that it has from then
/// on, except that a side of length 0 becomes 1. A renderer of exactly that size
/// stays, any other is given up. No other slot changes.
pub proof fn lemma_size_taken(slots: Seq<Slot>, id: u32, width: u32, height: u32, k: int)
    requires
        0 <= k < slots.len(),
        slots[k].surface is Some,
        slots[k].surface->0.id == id,
        forall|i: int|
            0 <= i < k ==> (#[trigger] slots[i]).surface is None || slots[i].surface->0.id != id,
    ensures
        slot_with_surface(slots, id) == k,
        ({
            let after = surface_resized(slots, id, width, height);
            let (old_surface, new_surface) = (slots[k].surface->0, after[k].surface->0);
            let size = Some((new_surface.width, new_surface.height));
            &&& after.len() == slots.len()
            &&& forall|i: int| 0 <= i < slots.len() && i != k ==> #[trigger] after[i] == slots[i]
            &&& after[k].output == slots[k].output
            &&& after[k].surface is Some
            &&& new_surface.id == id
            &&& new_surface.configured
            &&& width >= 1 ==> new_surface.width == width
            &&& width == 0 ==> new_surface.width == 1
            &&& height >= 1 ==> new_surface.height == height
            &&& height == 0 ==> new_surface.height == 1
            &&& old_surface.renderer == size ==> new_surface.renderer == size
            &&& old_surface.renderer != size ==> new_surface.renderer is None
        }),
{
    assert forall|i: int| 0 <= i < k implies !(#[trigger] slots[i]).has_surface(id) by {
        assert(slots[i].surface is None || slots[i].surface->0.id != id);
    }
    lemma_slot_with_surface(slots, id, k);
}

/// A size for a surface that no output has changes nothing.
pub proof fn lemma_size_of_unknown(slots: Seq<Slot>, id: u32, width: u32, height: u32)
    requires
        forall|i: int|
            0 <= i < slots.len() ==> (#[trigger] slots[i]).surface is None || slots[i].surface->0.id
                != id,
    ensures
        slot_with_surface(slots, id) == slots.len(),
        surface_resized(slots, id, width, height) == slots,
{
    assert forall|i: int| 0 <= i < slots.len() implies !(#[trigger] slots[i]).has_surface(id) by {
        assert(slots[i].surface is None || slots[i].surface->0.id != id);
    }
    lemma_slot_with_surface(slots, id, slots.len() as int);
}

/// A renderer is made in the size of its surface, and nothing else changes.
pub proof fn lemma_renderer_size(slots: Seq<Slot>, k: int)
    requires
        0 <= k < slots.len(),
        slots[k].surface is Some,
    ensures
        ({
            let after = renderer_made(slots, k);
            let (old_surface, new_surface) = (slots[k].surface->0, after[k].surface->0);
            &&& after.len() == slots.len()
            &&& forall|i: int| 0 <= i < slots.len() && i != k ==> #[trigger] after[i] == slots[i]
            &&& after[k].output == slots[k].output
            &&& after[k].surface is Some
            &&& new_surface.id == old_surface.id
            &&& new_surface.width == old_surface.width
            &&& new_surface.height == old_surface.height
            &&& new_surface.configured == old_surface.configured
            &&& new_surface.renderer == Some((old_surface.width, old_surface.height))
        }),
{
}

/// A surface goes to the first slot of its output, in place of any that was there.
pub proof fn lemma_surface_replaced(slots: Seq<Slot>, output: u32, surface: Surface, k: int)
    requires
        0 <= k < slots.len(),
        slots[k].output == output,
        forall|i: int| 0 <= i < k ==> (#[trigger] slots[i]).output != output,
    ensures
        slot_of(slots, output) == k,
        ({
            let after = surface_placed(slots, output, surface);
            &&& after.len() == slots.len()
            &&& forall|i: int| 0 <= i < slots.len() && i != k ==> #[trigger] after[i] == slots[i]
            &&& after[k].output == output
            &&& after[k].surface == Some(surface)
        }),
{
    lemma_slot_of(slots, output, k);
}

/// A surface for an output without a slot gets a new one at the end.
pub proof fn lemma_surface_added(slots: Seq<Slot>, output: u32, surface: Surface)
    requires
        forall|i: int| 0 <= i < slots.len() ==> (#[trigger] slots[i]).output != output,
    ensures
        slot_of(slots, output) == slots.len(),
        ({
            let after = surface_placed(slots, output, surface);
            &&& after.len() == slots.len() + 1
            &&& forall|i: int| 0 <= i < slots.len() ==> #[trigger] after[i] == slots[i]
            &&& after[slots.len() as int].output == output
            &&& after[slots.len() as int].surface == Some(surface)
        }),
{
    lemma_slot_of(slots, output, slots.len() as int);
}

/// The pattern is drawn on exactly the slots with a surface that has its size and a
/// renderer, and the slots to clear are exactly those with a renderer. Both come
/// in ascending order.
pub proof fn lemma_slots_to_draw(slots: Seq<Slot>)
    requires
        slots.len() <= usize::MAX,
    ensures
        forall|k: usize| #[trigger]
            drawn(slots).contains(k) <==> k < slots.len() && slots[k as int].surface is Some
                && slots[k as int].surface->0.configured && slots[k as int].surface->0.renderer
                is Some,
        forall|k: usize| #[trigger]
            rendered(slots).contains(k) <==> k < slots.len() && slots[k as int].surface is Some
                && slots[k as int].surface->0.renderer is Some,
        forall|i: int, j: int| 0 <= i < j < drawn(slots).len() ==> drawn(slots)[i] < drawn(slots)[j],
        forall|i: int, j: int|
            0 <= i < j < rendered(slots).len() ==> rendered(slots)[i] < rendered(slots)[j],
{
    lemma_slots_where(slots, |slot: Slot| slot.drawn());
    lemma_slots_where(slots, |slot: Slot| slot.rendered());
    assert forall|k: usize| k < slots.len() && slots[k as int].drawn() implies #[trigger] drawn(
        slots,
    ).contains(k) by {
        assert(drawn(slots).contains((k as int) as usize));
    }
    assert forall|k: usize| k < slots.len() && slots[k as int].rendered() implies #[trigger] rendered(
        slots,
    ).contains(k) by {
        assert(rendered(slots).contains((k as int) as usize));
    }
}

/// The unsigned number with the bits of a size is that size where it is not
/// negative, and in every case differs from it by a multiple of two to the
/// thirty-second.
pub proof fn lemma_unsigned(size: i32)
    ensures
        0 <= unsigned(size) <= u32::MAX,
        size >= 0 ==> unsigned(size) == size,
        (unsigned(size) - size) % 0x1_0000_0000 == 0,
{
}

/// The scales are taken from the one configured output that no other exceeds in
/// area, nor in width at the same area. On it, a pendulum unit has the same length
/// in pixels along both axes: scale times half the side is four fifths of half the
/// shorter side.
pub proof fn lemma_scales_of_largest(slots: Seq<Slot>, k: int)
    requires
        0 <= k < slots.len(),
        slots[k].surface is Some,
        slots[k].surface->0.configured,
        slots[k].surface->0.width >= 1,
        slots[k].surface->0.height >= 1,
        forall|i: int|
            0 <= i < slots.len() && (#[trigger] slots[i]).surface is Some
                && slots[i].surface->0.configured ==> {
                let (area, most) = (
                    slots[i].surface->0.width * slots[i].surface->0.height,
                    slots[k].surface->0.width * slots[k].surface->0.height,
                );
                area < most || area == most && slots[i].surface->0.width
                    <= slots[k].surface->0.width
            },
    ensures
        output_scales(slots) is Some,
        ({
            let (x, y) = output_scales(slots)->0;
            let (width, height) = (slots[k].surface->0.width, slots[k].surface->0.height);
            let least = if width < height {
                width
            } else {
                height
            };
            &&& x.den > 0
            &&& y.den > 0
            &&& 5 * (x.num * width) == 4 * (least * x.den)
            &&& 5 * (y.num * height) == 4 * (least * y.den)
        }),
{
    assert forall|i: int| 0 <= i < slots.len() && (#[trigger] slots[i]).configured() implies !larger(
        slots[i].surface->0,
        slots[k].surface->0,
    ) by {
        assert(slots[i].surface is Some);
    }
    lemma_largest_size(slots, k);
    lemma_pattern_square(slots[k].surface->0.width, slots[k].surface->0.height);
}

/// Without a configured output there are no scales.
pub proof fn lemma_no_scales(slots: Seq<Slot>)
    requires
        forall|i: int|
            0 <= i < slots.len() ==> (#[trigger] slots[i]).surface is None
                || !slots[i].surface->0.configured,
    ensures
        output_scales(slots) is None,
{
    lemma_largest(slots);
    if largest(slots) is Some {
        let i = choose|i: int|
            0 <= i < slots.len() && (#[trigger] slots[i]).configured() && slots[i].surface
                == largest(slots);
        assert(slots[i].surface is None || !slots[i].surface->0.configured);
    }
}

} // verus!
