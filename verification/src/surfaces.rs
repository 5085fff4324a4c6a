//! The bookkeeping of the background surfaces: one per output, each with the
//! renderer that draws on it once the compositor has given it a size.
//!
//! Outputs and surfaces are known by their protocol object ids; `H` is what
//! the caller keeps of a surface's protocol objects and `R` its renderer.
use vstd::prelude::*;

verus! {

/// One background surface.
pub struct SurfaceSlot<H, R> {
    /// The output that the surface covers.
    pub output: u32,
    /// The surface itself.
    pub surface: u32,
    /// The compositor has given the surface a size.
    pub configured: bool,
    /// The caller's protocol objects of the surface.
    pub handles: H,
    /// The renderer, once one has been made.
    pub renderer: Option<R>,
}

/// The background surfaces, and whether the program goes on running.
pub struct SurfaceTable<H, R> {
    pub slots: Vec<SurfaceSlot<H, R>>,
    pub running: bool,
}

/// What to do after the compositor has given a surface a size.
#[derive(Clone, Copy, Debug, PartialEq, Eq)]
pub enum ConfigureAction {
    /// Nothing: the size is empty or the surface is not known.
    Ignore,
    /// Resize the renderer of the slot at this position.
    Resize(usize),
    /// Make a renderer for the slot at this position.
    Create(usize),
}

/// Keeps the slots that do not cover `output`.
pub open spec fn not_on_output<H, R>(output: u32) -> spec_fn(SurfaceSlot<H, R>) -> bool {
    |s: SurfaceSlot<H, R>| s.output != output
}

/// Keeps the slots that are not `surface`.
pub open spec fn not_surface<H, R>(surface: u32) -> spec_fn(SurfaceSlot<H, R>) -> bool {
    |s: SurfaceSlot<H, R>| s.surface != surface
}

/// Position of the first slot of `surface` in `slots` from position `k`
/// on, if any.
pub open spec fn first_slot_from<H, R>(slots: Seq<SurfaceSlot<H, R>>, surface: u32, k: int) -> Option<
    int,
>
    decreases slots.len() - k,
{
    if k < 0 || k >= slots.len() {
        None
    } else if slots[k].surface == surface {
        Some(k)
    } else {
        first_slot_from(slots, surface, k + 1)
    }
}

/// Position of the first slot of `surface` in `slots`, if any.
pub open spec fn first_slot_of<H, R>(slots: Seq<SurfaceSlot<H, R>>, surface: u32) -> Option<int> {
    first_slot_from(slots, surface, 0)
}

/// The first slot found is a slot of the surface, and none before it is.
proof fn lemma_first_slot_from<H, R>(slots: Seq<SurfaceSlot<H, R>>, surface: u32, k: int)
    requires
        0 <= k,
    ensures
        first_slot_from(slots, surface, k) matches Some(j) ==> {
            &&& k <= j < slots.len()
            &&& slots[j].surface == surface
            &&& forall|l: int| k <= l < j ==> (#[trigger] slots[l]).surface != surface
        },
        first_slot_from(slots, surface, k) is None ==> forall|l: int|
            k <= l < slots.len() ==> (#[trigger] slots[l]).surface != surface,
    decreases slots.len() - k,
{
    if k < slots.len() && slots[k].surface != surface {
        lemma_first_slot_from(slots, surface, k + 1);
    }
}

/// Slots with the same surfaces in the same places find the same first slot.
proof fn lemma_first_slot_same_surfaces<H, R>(
    a: Seq<SurfaceSlot<H, R>>,
    b: Seq<SurfaceSlot<H, R>>,
    surface: u32,
    k: int,
)
    requires
        a.len() == b.len(),
        forall|l: int| 0 <= l < a.len() ==> (#[trigger] a[l]).surface == b[l].surface,
    ensures
        first_slot_from(a, surface, k) == first_slot_from(b, surface, k),
    decreases a.len() - k,
{
    if 0 <= k < a.len() {
        lemma_first_slot_same_surfaces(a, b, surface, k + 1);
    }
}

/// What configuring `surface` with the given size does to the slots and
/// which action it asks for: an empty size or an unknown surface changes
/// nothing; otherwise the first slot of the surface becomes configured, and
/// its renderer is to be resized if it has one, made if not.
pub open spec fn configure_effect<H, R>(
    slots: Seq<SurfaceSlot<H, R>>,
    surface: u32,
    width: i32,
    height: i32,
) -> (Seq<SurfaceSlot<H, R>>, ConfigureAction) {
    if width == 0 || height == 0 {
        (slots, ConfigureAction::Ignore)
    } else {
        match first_slot_of(slots, surface) {
            None => (slots, ConfigureAction::Ignore),
            Some(i) => {
                let s = slots[i];
                (
                    slots.update(
                        i,
                        SurfaceSlot {
                            output: s.output,
                            surface: s.surface,
                            configured: true,
                            handles: s.handles,
                            renderer: s.renderer,
                        },
                    ),
                    if s.renderer is Some {
                        ConfigureAction::Resize(i as usize)
                    } else {
                        ConfigureAction::Create(i as usize)
                    },
                )
            },
        }
    }
}

/// The slots with the renderer of the slot at position `i` set to `r`.
pub open spec fn with_renderer<H, R>(slots: Seq<SurfaceSlot<H, R>>, i: int, r: R) -> Seq<
    SurfaceSlot<H, R>,
> {
    let s = slots[i];
    slots.update(
        i,
        SurfaceSlot {
            output: s.output,
            surface: s.surface,
            configured: s.configured,
            handles: s.handles,
            renderer: Some(r),
        },
    )
}

/// The slot is drawn on each frame: it is configured and has a renderer.
pub open spec fn ready<H, R>(s: SurfaceSlot<H, R>) -> bool {
    s.configured && s.renderer is Some
}

/// The positions, in increasing order, of the slots among the first `n`
/// that are drawn on each frame.
pub open spec fn ready_positions<H, R>(slots: Seq<SurfaceSlot<H, R>>, n: int) -> Seq<usize>
    decreases n,
{
    if n <= 0 {
        Seq::empty()
    } else if ready(slots[n - 1]) {
        ready_positions(slots, n - 1).push((n - 1) as usize)
    } else {
        ready_positions(slots, n - 1)
    }
}

/// Filtering one slot more: it is appended where `keep` holds of it.
proof fn lemma_filter_step<H, R>(
    orig: Seq<SurfaceSlot<H, R>>,
    keep: spec_fn(SurfaceSlot<H, R>) -> bool,
    j: int,
)
    requires
        0 <= j < orig.len(),
    ensures
        orig.take(j + 1).filter(keep) == if keep(orig[j]) {
            orig.take(j).filter(keep).push(orig[j])
        } else {
            orig.take(j).filter(keep)
        },
{
    reveal(Seq::filter);
    assert(orig.take(j + 1).drop_last() =~= orig.take(j));
    assert(orig.take(j + 1).last() == orig[j]);
}


/// A position is among the ready positions below `n` exactly when it is
/// below `n` and its slot is ready.
proof fn lemma_ready_positions<H, R>(slots: Seq<SurfaceSlot<H, R>>, n: int, i: usize)
    requires
        0 <= n <= slots.len() <= usize::MAX,
    ensures
        ready_positions(slots, n).contains(i) <==> (i < n && ready(slots[i as int])),
        forall|k: int|
            0 <= k < ready_positions(slots, n).len() ==> #[trigger] ready_positions(slots, n)[k]
                < n,
    decreases n,
{
    if n > 0 {
        lemma_ready_positions(slots, n - 1, i);
        let prev = ready_positions(slots, n - 1);
        if ready(slots[n - 1]) {
            let cur = prev.push((n - 1) as usize);
            if i < n - 1 && ready(slots[i as int]) {
                let k = choose|k: int| 0 <= k < prev.len() && prev[k] == i;
                assert(cur[k] == i);
            }
            if cur.contains(i) {
                let k = choose|k: int| 0 <= k < cur.len() && cur[k] == i;
                if k < prev.len() {
                    assert(prev[k] == i);
                }
            }
            if i == n - 1 {
                assert(cur[prev.len() as int] == i);
            }
        }
    }
}

/// After the surfaces of an output are forgotten, no slot covers that
/// output any more, and every slot of another output is still there.
pub proof fn law_removed_output_is_gone<H, R>(slots: Seq<SurfaceSlot<H, R>>, output: u32)
    ensures
        forall|k: int|
            0 <= k < slots.filter(not_on_output::<H, R>(output)).len() ==> (#[trigger] slots.filter(
                not_on_output::<H, R>(output),
            )[k]).output != output,
        forall|k: int|
            0 <= k < slots.len() && (#[trigger] slots[k]).output != output ==> slots.filter(
                not_on_output::<H, R>(output),
            ).contains(slots[k]),
{
    broadcast use vstd::seq_lib::group_filter_ensures;

    assert(slots.filter(not_on_output::<H, R>(output)).len() >= 0);
}

/// After a closed surface is forgotten, no slot is that surface any more,
/// and every other slot is still there.
pub proof fn law_removed_surface_is_gone<H, R>(slots: Seq<SurfaceSlot<H, R>>, surface: u32)
    ensures
        forall|k: int|
            0 <= k < slots.filter(not_surface::<H, R>(surface)).len() ==> (#[trigger] slots.filter(
                not_surface::<H, R>(surface),
            )[k]).surface != surface,
        forall|k: int|
            0 <= k < slots.len() && (#[trigger] slots[k]).surface != surface ==> slots.filter(
                not_surface::<H, R>(surface),
            ).contains(slots[k]),
{
    broadcast use vstd::seq_lib::group_filter_ensures;

    assert(slots.filter(not_surface::<H, R>(surface)).len() >= 0);
}

/// A surface that asked for a renderer and got one is drawn on each frame,
/// and a later size for it resizes that renderer instead of making another.
pub proof fn law_renderer_made_once<H, R>(
    slots: Seq<SurfaceSlot<H, R>>,
    surface: u32,
    width: i32,
    height: i32,
    i: usize,
    renderer: R,
    width2: i32,
    height2: i32,
)
    requires
        slots.len() <= usize::MAX,
        configure_effect(slots, surface, width, height).1 == ConfigureAction::Create(i),
        width2 != 0,
        height2 != 0,
    ensures
        ({
            let after = with_renderer(configure_effect(slots, surface, width, height).0, i as int, renderer);
            &&& ready_positions(after, after.len() as int).contains(i)
            &&& configure_effect(after, surface, width2, height2).1 == ConfigureAction::Resize(i)
        }),
{
    let first = configure_effect(slots, surface, width, height).0;
    let after = with_renderer(first, i as int, renderer);
    lemma_first_slot_from(slots, surface, 0);
    let j = first_slot_of(slots, surface)->0;
    assert(j == i as int);
    lemma_first_slot_same_surfaces(slots, after, surface, 0);
    lemma_ready_positions(after, after.len() as int, i);
}

/// The size that the compositor gives to a surface: an empty size, or a
/// surface that is not known, is ignored and changes nothing; a non-empty
/// size for a known surface is never ignored: the first slot of that
/// surface becomes configured, everything else stays as it was, and its
/// renderer is resized if it has one and made otherwise.
pub proof fn law_configure<H, R>(
    slots: Seq<SurfaceSlot<H, R>>,
    surface: u32,
    width: i32,
    height: i32,
    j: usize,
)
    requires
        slots.len() <= usize::MAX,
    ensures
        width == 0 || height == 0 ==> configure_effect(slots, surface, width, height) == (
            slots,
            ConfigureAction::Ignore,
        ),
        (forall|i: int| 0 <= i < slots.len() ==> (#[trigger] slots[i]).surface != surface)
            ==> configure_effect(slots, surface, width, height) == (slots, ConfigureAction::Ignore),
        width != 0 && height != 0 && (exists|i: int|
            0 <= i < slots.len() && (#[trigger] slots[i]).surface == surface) ==> configure_effect(
            slots,
            surface,
            width,
            height,
        ).1 != ConfigureAction::Ignore,
        ({
            let (after, action) = configure_effect(slots, surface, width, height);
            width != 0 && height != 0 && j < slots.len() && slots[j as int].surface == surface && (
            forall|k: int| 0 <= k < j ==> (#[trigger] slots[k]).surface != surface) ==> {
                &&& action == (if slots[j as int].renderer is Some {
                    ConfigureAction::Resize(j)
                } else {
                    ConfigureAction::Create(j)
                })
                &&& after.len() == slots.len()
                &&& after[j as int].configured
                &&& after[j as int].output == slots[j as int].output
                &&& after[j as int].surface == slots[j as int].surface
                &&& after[j as int].handles == slots[j as int].handles
                &&& after[j as int].renderer == slots[j as int].renderer
                &&& forall|k: int| 0 <= k < slots.len() && k != j ==> #[trigger] after[k] == slots[k]
            }
        }),
{
    lemma_first_slot_from(slots, surface, 0);
    if width != 0 && height != 0 && j < slots.len() && slots[j as int].surface == surface && (
    forall|k: int| 0 <= k < j ==> (#[trigger] slots[k]).surface != surface) {
        let f = first_slot_of(slots, surface);
        assert(f == Some(j as int)) by {
            if f is None {
                assert(slots[j as int].surface == surface);
            } else {
                let g = f->0;
                if g < j {
                    assert(slots[g].surface != surface);
                } else if g > j {
                    assert(slots[j as int].surface != surface);
                }
            }
        }
    }
    if width != 0 && height != 0 && (exists|i: int|
        0 <= i < slots.len() && (#[trigger] slots[i]).surface == surface) {
        let i = choose|i: int| 0 <= i < slots.len() && (#[trigger] slots[i]).surface == surface;
        assert(first_slot_of(slots, surface) is Some) by {
            if first_slot_of(slots, surface) is None {
                assert(slots[i].surface != surface);
            }
        }
    }
}

/// What [`law_configure`] states of a known surface, for every position.
pub open spec fn configure_picks_first<H, R>(
    slots: Seq<SurfaceSlot<H, R>>,
    surface: u32,
    width: i32,
    height: i32,
) -> bool {
    forall|j: usize|
        width != 0 && height != 0 && j < slots.len() && (#[trigger] slots[j as int]).surface == surface
            && (forall|k: int| 0 <= k < j ==> (#[trigger] slots[k]).surface != surface) ==> ({
            let (after, action) = configure_effect(slots, surface, width, height);
            &&& action == (if slots[j as int].renderer is Some {
                ConfigureAction::Resize(j)
            } else {
                ConfigureAction::Create(j)
            })
            &&& after.len() == slots.len()
            &&& after[j as int].configured
            &&& after[j as int].renderer == slots[j as int].renderer
            &&& after[j as int].surface == surface
            &&& forall|k: int| 0 <= k < slots.len() && k != j ==> #[trigger] after[k] == slots[k]
        })
}

impl<H, R> SurfaceTable<H, R> {
    /// No surface yet, running.
    pub fn new() -> (r: Self)
        ensures
            r.slots@.len() == 0,
            r.running,
    {
        SurfaceTable { slots: Vec::new(), running: true }
    }

    /// Adds the surface made for a new output, not yet configured and
    /// without renderer, after the others.
    pub fn add(&mut self, output: u32, surface: u32, handles: H)
        ensures
            final(self).slots@ == old(self).slots@.push(
                SurfaceSlot { output, surface, configured: false, handles, renderer: None },
            ),
            final(self).running == old(self).running,
    {
        self.slots.push(SurfaceSlot { output, surface, configured: false, handles, renderer: None });
    }

    /// Removes the slots of output `key` (`by_output`) or of surface `key`,
    /// keeping the others in order.
    fn remove_where(&mut self, key: u32, by_output: bool)
        ensures
            final(self).slots@ == old(self).slots@.filter(
                if by_output {
                    not_on_output::<H, R>(key)
                } else {
                    not_surface::<H, R>(key)
                },
            ),
            final(self).running == old(self).running,
    {
        let ghost orig = self.slots@;
        let ghost keep = if by_output {
            not_on_output::<H, R>(key)
        } else {
            not_surface::<H, R>(key)
        };
        let mut i: usize = 0;
        let ghost mut j: int = 0;
        proof {
            reveal(Seq::filter);
            assert(orig.take(0) =~= Seq::<SurfaceSlot<H, R>>::empty());
            assert(orig.skip(0) =~= orig);
            assert(self.slots@ =~= orig.take(0).filter(keep) + orig.skip(0));
        }
        while i < self.slots.len()
            invariant
                0 <= j <= orig.len(),
                i == orig.take(j).filter(keep).len(),
                self.slots@ == orig.take(j).filter(keep) + orig.skip(j),
                self.running == old(self).running,
                keep == (if by_output {
                    not_on_output::<H, R>(key)
                } else {
                    not_surface::<H, R>(key)
                }),
            decreases self.slots.len() - i,
        {
            proof {
                lemma_filter_step(orig, keep, j);
                assert(self.slots@[i as int] == orig[j]);
            }
            let gone: bool = if by_output {
                self.slots[i].output == key
            } else {
                self.slots[i].surface == key
            };
            if gone {
                self.slots.remove(i);
                proof {
                    assert(self.slots@ =~= orig.take(j + 1).filter(keep) + orig.skip(j + 1));
                }
            } else {
                proof {
                    assert(self.slots@ =~= orig.take(j + 1).filter(keep) + orig.skip(j + 1));
                }
                i = i + 1;
            }
            proof {
                j = j + 1;
            }
        }
        proof {
            assert(j == orig.len()) by {
                if j < orig.len() {
                    assert(self.slots@.len() > i);
                }
            }
            assert(orig.take(j) =~= orig);
            assert(self.slots@ =~= orig.filter(keep));
        }
    }

    /// Forgets the surfaces of an output that has gone away; the program
    /// stops running when no surface is left.
    pub fn remove_output(&mut self, output: u32)
        ensures
            final(self).slots@ == old(self).slots@.filter(not_on_output::<H, R>(output)),
            final(self).running == (old(self).running && final(self).slots@.len() > 0),
    {
        self.remove_where(output, true);
        if self.slots.len() == 0 {
            self.running = false;
        }
    }

    /// Forgets a surface that the compositor has closed; the program stops
    /// running when no surface is left.
    pub fn remove_surface(&mut self, surface: u32)
        ensures
            final(self).slots@ == old(self).slots@.filter(not_surface::<H, R>(surface)),
            final(self).running == (old(self).running && final(self).slots@.len() > 0),
    {
        self.remove_where(surface, false);
        if self.slots.len() == 0 {
            self.running = false;
        }
    }

    /// Takes in the size that the compositor gave to `surface`, as
    /// [`configure_effect`] describes.
    pub fn configure(&mut self, surface: u32, width: i32, height: i32) -> (r: ConfigureAction)
        ensures
            (final(self).slots@, r) == configure_effect(old(self).slots@, surface, width, height),
            final(self).running == old(self).running,
            width == 0 || height == 0 ==> r == ConfigureAction::Ignore && final(self).slots@ == old(self).slots@,
            (forall|i: int|
                0 <= i < old(self).slots@.len() ==> (#[trigger] old(self).slots@[i]).surface
                    != surface) ==> r == ConfigureAction::Ignore && final(self).slots@ == old(self).slots@,
            forall|j: usize|
                width != 0 && height != 0 && j < old(self).slots@.len() && (#[trigger] old(self).slots@[j as int]).surface == surface && (forall|k: int|
                    0 <= k < j ==> (#[trigger] old(self).slots@[k]).surface != surface) ==> {
                    &&& r == (if old(self).slots@[j as int].renderer is Some {
                        ConfigureAction::Resize(j)
                    } else {
                        ConfigureAction::Create(j)
                    })
                    &&& final(self).slots@.len() == old(self).slots@.len()
                    &&& final(self).slots@[j as int].configured
                    &&& final(self).slots@[j as int].renderer == old(self).slots@[j as int].renderer
                    &&& final(self).slots@[j as int].surface == surface
                    &&& forall|k: int|
                        0 <= k < old(self).slots@.len() && k != j ==> #[trigger] final(self).slots@[k] == old(self).slots@[k]
                },
    {
        let count: usize = self.slots.len();
        proof {
            assert(self.slots@.len() == count);
            assert forall|j: usize|
                width != 0 && height != 0 && j < self.slots@.len() && (#[trigger] self.slots@[j as int]).surface
                    == surface && (forall|k: int|
                    0 <= k < j ==> (#[trigger] self.slots@[k]).surface != surface) implies ({
                let (after, action) = configure_effect(self.slots@, surface, width, height);
                &&& action == (if self.slots@[j as int].renderer is Some {
                    ConfigureAction::Resize(j)
                } else {
                    ConfigureAction::Create(j)
                })
                &&& after.len() == self.slots@.len()
                &&& after[j as int].configured
                &&& after[j as int].renderer == self.slots@[j as int].renderer
                &&& after[j as int].surface == surface
                &&& forall|k: int|
                    0 <= k < self.slots@.len() && k != j ==> #[trigger] after[k] == self.slots@[k]
            }) by {
                law_configure(self.slots@, surface, width, height, j);
            }
            assert(configure_picks_first(self.slots@, surface, width, height));
            law_configure(self.slots@, surface, width, height, 0);
        }
        if width == 0 || height == 0 {
            return ConfigureAction::Ignore;
        }
        let mut i: usize = 0;
        while i < self.slots.len()
            invariant
                i <= self.slots.len(),
                self.slots@ == old(self).slots@,
                self.running == old(self).running,
                width != 0 && height != 0,
                configure_picks_first(old(self).slots@, surface, width, height),
                first_slot_of(self.slots@, surface) == first_slot_from(self.slots@, surface, i as int),
            decreases self.slots.len() - i,
        {
            if self.slots[i].surface == surface {
                let ghost before = self.slots@;
                let has_renderer: bool = self.slots[i].renderer.is_some();
                self.slots[i].configured = true;
                proof {
                    let s = before[i as int];
                    assert(self.slots@ =~= before.update(
                        i as int,
                        SurfaceSlot {
                            output: s.output,
                            surface: s.surface,
                            configured: true,
                            handles: s.handles,
                            renderer: s.renderer,
                        },
                    ));
                }
                if has_renderer {
                    return ConfigureAction::Resize(i);
                } else {
                    return ConfigureAction::Create(i);
                }
            }
            i = i + 1;
        }
        ConfigureAction::Ignore
    }

    /// Gives the slot at position `i` its renderer.
    pub fn set_renderer(&mut self, i: usize, renderer: R)
        requires
            i < old(self).slots@.len(),
        ensures
            final(self).slots@ == with_renderer(old(self).slots@, i as int, renderer),
            final(self).running == old(self).running,
    {
        let ghost before = self.slots@;
        self.slots[i].renderer = Some(renderer);
        proof {
            assert(self.slots@ =~= with_renderer(before, i as int, renderer));
        }
    }

    /// The positions, in increasing order, of the slots to draw on in a
    /// frame: those configured and with a renderer.
    pub fn frame_targets(&self) -> (r: Vec<usize>)
        ensures
            r@ == ready_positions(self.slots@, self.slots@.len() as int),
    {
        let mut r: Vec<usize> = Vec::new();
        let mut i: usize = 0;
        while i < self.slots.len()
            invariant
                i <= self.slots.len(),
                r@ == ready_positions(self.slots@, i as int),
            decreases self.slots.len() - i,
        {
            if self.slots[i].configured && self.slots[i].renderer.is_some() {
                r.push(i);
            }
            i = i + 1;
        }
        r
    }
}

} // verus!
