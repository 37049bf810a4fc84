//! `CAEAGLLayer`: layers that the guest draws to directly, and whether one of them
//! fills the screen, so that nothing has to be composed.
use crate::singles;
use vstd::prelude::*;

verus! {

/// The middle of a layer, as an anchor.
pub const HALF: u32 = 0x3f00_0000;

/// Which of two lengths are near those of the screen, upright and turned by a
/// quarter.
#[derive(Clone, Copy, Debug, PartialEq, Eq, Structural)]
pub struct Nearness {
    pub x: bool,
    pub y: bool,
    pub x_turned: bool,
    pub y_turned: bool,
}

impl Nearness {
    /// Both lengths are near those of the screen in one of its orientations.
    pub open spec fn fits(&self) -> bool {
        (self.x && self.y) || (self.x_turned && self.y_turned)
    }

    pub fn is_near(&self) -> (yes: bool)
        ensures
            yes == self.fits(),
    {
        (self.x && self.y) || (self.x_turned && self.y_turned)
    }
}

/// What matters of a layer. Anchor and opacity are single-precision numbers, given
/// by their bits.
pub struct Layer {
    /// How the size compares with that of the screen.
    pub size: Nearness,
    /// How the position compares with the middle of the screen.
    pub position: Nearness,
    /// Which coordinates of the origin of the bounds are near zero.
    pub origin_x_near: bool,
    pub origin_y_near: bool,
    pub anchor_x: u32,
    pub anchor_y: u32,
    pub hidden: bool,
    pub opacity: u32,
    pub opaque: bool,
    /// The layer is one that the guest draws to directly.
    pub is_eagl: bool,
    /// The layer covers half of the screen or more.
    pub is_large: bool,
    /// A text in the layer is being edited, or the layer gets the input.
    pub is_editing: bool,
    pub is_focused: bool,
    /// The layers on top of this one, by their places, the lowest first.
    pub sublayers: Vec<usize>,
    /// Pixels that have been presented, with their size.
    pub presented_pixels: Option<(Vec<u8>, u32, u32)>,
    pub texture_is_up_to_date: bool,
}

/// A window: whether it is hidden, and its layer.
#[derive(Clone, Copy, Debug, PartialEq, Eq, Structural)]
pub struct Window {
    pub hidden: bool,
    pub layer: usize,
}

/// All layers. A layer comes before those on top of it.
pub struct Layers {
    pub layers: Vec<Layer>,
    /// The screen has an area.
    pub screen_has_area: bool,
}

impl Layers {
    pub open spec fn wf(&self) -> bool {
        forall|i: int, k: int|
            0 <= i < self.layers@.len() && 0 <= k < self.layers@[i].sublayers@.len() ==> i
                < #[trigger] self.layers@[i].sublayers@[k] < self.layers@.len()
    }

    /// The layer covers the whole screen and can be seen fully.
    pub open spec fn covers(&self, i: int) -> bool {
        let layer = self.layers@[i];
        &&& layer.size.fits()
        &&& layer.origin_x_near && layer.origin_y_near
        &&& singles::is_equal(layer.anchor_x, HALF) && singles::is_equal(layer.anchor_y, HALF)
        &&& layer.position.fits()
        &&& !layer.hidden
        &&& singles::is_equal(layer.opacity, singles::ONE)
    }

    /// The layer is a small decoration that nobody works with, such as a hint.
    pub open spec fn ignorable(&self, i: int) -> bool {
        let layer = self.layers@[i];
        self.screen_has_area && !layer.is_large && !layer.is_editing && !layer.is_focused
    }

    /// The highest layer on top of a layer that counts, among the first `n`.
    pub open spec fn top_sublayer(&self, i: int, n: nat) -> Option<usize>
        decreases n,
    {
        if n == 0 {
            None
        } else {
            let candidate = self.layers@[i].sublayers@[n - 1];
            if self.ignorable(candidate as int) {
                self.top_sublayer(i, (n - 1) as nat)
            } else {
                Some(candidate)
            }
        }
    }

    /// The layer that fills the screen, looked for from a layer upwards.
    pub open spec fn found_from(&self, i: int) -> Option<usize>
        decreases self.layers@.len() - i,
    {
        if !(0 <= i < self.layers@.len()) || !self.covers(i) {
            None
        } else {
            match self.top_sublayer(i, self.layers@[i].sublayers@.len()) {
                Some(next) => if i < next < self.layers@.len() {
                    self.found_from(next as int)
                } else {
                    None
                },
                None => if self.layers@[i].opaque && self.layers@[i].is_eagl {
                    Some(i as usize)
                } else {
                    None
                },
            }
        }
    }

    /// Whether a layer can be passed over when the top layer is looked for.
    pub fn overlay_is_ignorable(&self, i: usize) -> (yes: bool)
        requires
            i < self.layers@.len(),
        ensures
            yes == self.ignorable(i as int),
    {
        let layer = &self.layers[i];
        self.screen_has_area && !layer.is_large && !layer.is_editing && !layer.is_focused
    }

    fn next_layer(&self, i: usize) -> (next: Option<usize>)
        requires
            self.wf(),
            i < self.layers@.len(),
        ensures
            next == self.top_sublayer(i as int, self.layers@[i as int].sublayers@.len()),
            next matches Some(n) ==> i < n < self.layers@.len(),
    {
        let mut n: usize = self.layers[i].sublayers.len();
        while n > 0
            invariant
                self.wf(),
                i < self.layers@.len(),
                n <= self.layers@[i as int].sublayers@.len(),
                self.top_sublayer(i as int, n as nat) == self.top_sublayer(
                    i as int,
                    self.layers@[i as int].sublayers@.len(),
                ),
            decreases n,
        {
            let candidate: usize = self.layers[i].sublayers[n - 1];
            assert(i < self.layers@[i as int].sublayers@[n - 1] < self.layers@.len());
            if !self.overlay_is_ignorable(candidate) {
                return Some(candidate);
            }
            n = n - 1;
        }
        None
    }

    fn is_covering(&self, i: usize) -> (yes: bool)
        requires
            i < self.layers@.len(),
        ensures
            yes == self.covers(i as int),
    {
        let layer = &self.layers[i];
        layer.size.is_near() && layer.origin_x_near && layer.origin_y_near && singles::equal(
            layer.anchor_x,
            HALF,
        ) && singles::equal(layer.anchor_y, HALF) && layer.position.is_near() && !layer.hidden
            && singles::equal(layer.opacity, singles::ONE)
    }

    fn find_from(&self, start: usize) -> (found: Option<usize>)
        requires
            self.wf(),
            start < self.layers@.len(),
        ensures
            found == self.found_from(start as int),
    {
        let mut i: usize = start;
        loop
            invariant
                self.wf(),
                i < self.layers@.len(),
                self.found_from(i as int) == self.found_from(start as int),
            decreases self.layers@.len() - i,
        {
            if !self.is_covering(i) {
                return None;
            }
            match self.next_layer(i) {
                Some(next) => {
                    i = next;
                },
                None => {
                    return if self.layers[i].opaque && self.layers[i].is_eagl {
                        Some(i)
                    } else {
                        None
                    };
                },
            }
        }
    }

    /// Takes the pixels that have been presented to a layer, or an empty list, to
    /// be filled anew.
    pub fn get_pixels_vec_for_presenting(&mut self, i: usize) -> (pixels: Vec<u8>)
        requires
            i < old(self).layers@.len(),
        ensures
            pixels@ == match old(self).layers@[i as int].presented_pixels {
                Some((p, w, h)) => p@,
                None => Seq::empty(),
            },
            final(self).layers@ == old(self).layers@.update(
                i as int,
                Layer { presented_pixels: None, ..old(self).layers@[i as int] },
            ),
            final(self).screen_has_area == old(self).screen_has_area,
    {
        let mut taken: Option<(Vec<u8>, u32, u32)> = None;
        let layer = &mut self.layers[i];
        std::mem::swap(&mut taken, &mut layer.presented_pixels);
        match taken {
            Some((pixels, _, _)) => pixels,
            None => {
                let none: Vec<u8> = Vec::new();
                assert(none@ =~= Seq::empty());
                none
            },
        }
    }

    /// Presents pixels to a layer, whose texture has to be made anew.
    pub fn present_pixels(&mut self, i: usize, pixels: Vec<u8>, width: u32, height: u32)
        requires
            i < old(self).layers@.len(),
        ensures
            final(self).layers@ == old(self).layers@.update(
                i as int,
                Layer {
                    presented_pixels: Some((pixels, width, height)),
                    texture_is_up_to_date: false,
                    ..old(self).layers@[i as int]
                },
            ),
            final(self).screen_has_area == old(self).screen_has_area,
    {
        let layer = &mut self.layers[i];
        layer.presented_pixels = Some((pixels, width, height));
        layer.texture_is_up_to_date = false;
    }
}

/// The highest window that is not hidden, among the first `n`.
pub open spec fn top_window(windows: Seq<Window>, n: nat) -> Option<Window>
    decreases n,
{
    if n == 0 {
        None
    } else if !windows[n - 1].hidden {
        Some(windows[n - 1])
    } else {
        top_window(windows, (n - 1) as nat)
    }
}

/// The layer that fills the screen and that the guest draws to directly, if there is
/// one: each layer from the top window's upwards has to cover the screen, and the
/// last one has to be opaque. Composition can be forced.
pub fn find_fullscreen_eagl_layer(
    force_composition: bool,
    windows: &Vec<Window>,
    layers: &Layers,
) -> (found: Option<usize>)
    requires
        layers.wf(),
        forall|i: int|
            0 <= i < windows@.len() ==> (#[trigger] windows@[i]).layer < layers.layers@.len(),
    ensures
        found == if force_composition {
            None
        } else {
            match top_window(windows@, windows@.len()) {
                Some(window) => layers.found_from(window.layer as int),
                None => None,
            }
        },
{
    if force_composition {
        return None;
    }
    let mut n: usize = windows.len();
    while n > 0
        invariant
            n <= windows@.len(),
            layers.wf(),
            !force_composition,
            forall|i: int|
                0 <= i < windows@.len() ==> (#[trigger] windows@[i]).layer < layers.layers@.len(),
            top_window(windows@, n as nat) == top_window(windows@, windows@.len()),
        decreases n,
    {
        if !windows[n - 1].hidden {
            return layers.find_from(windows[n - 1].layer);
        }
        n = n - 1;
    }
    None
}

/// A layer that is found covers the screen, is opaque, and is one that the guest
/// draws to; nothing on top of it counts.
pub proof fn law_found_layer(layers: Layers, i: int)
    requires
        layers.wf(),
        0 <= i < layers.layers@.len(),
        layers.layers@.len() <= usize::MAX,
    ensures
        layers.found_from(i) matches Some(found) ==> {
            &&& i <= found < layers.layers@.len()
            &&& layers.covers(found as int)
            &&& layers.layers@[found as int].opaque
            &&& layers.layers@[found as int].is_eagl
            &&& forall|k: int|
                0 <= k < layers.layers@[found as int].sublayers@.len() ==> layers.ignorable(
                    #[trigger] layers.layers@[found as int].sublayers@[k] as int,
                )
        },
    decreases layers.layers@.len() - i,
{
    let n = layers.layers@[i].sublayers@.len();
    lemma_top_sublayer(layers, i, n);
    if layers.covers(i) {
        if let Some(next) = layers.top_sublayer(i, n) {
            if i < next {
                law_found_layer(layers, next as int);
            }
        }
    }
}

proof fn lemma_top_sublayer(layers: Layers, i: int, n: nat)
    requires
        layers.wf(),
        0 <= i < layers.layers@.len(),
        n <= layers.layers@[i].sublayers@.len(),
    ensures
        layers.top_sublayer(i, n) matches Some(next) ==> i < next < layers.layers@.len(),
        layers.top_sublayer(i, n) is None ==> forall|k: int|
            0 <= k < n ==> layers.ignorable(#[trigger] layers.layers@[i].sublayers@[k] as int),
    decreases n,
{
    if n > 0 {
        assert(i < layers.layers@[i].sublayers@[n - 1] < layers.layers@.len());
        lemma_top_sublayer(layers, i, (n - 1) as nat);
    }
}

/// A layer fills the screen where its size and position fit, either way round, its bounds
/// begin at zero, it is anchored in its middle, and it is neither hidden nor transparent.
pub proof fn law_covers(layers: Layers, i: int)
    ensures
        ({
            let layer = layers.layers@[i];
            &&& layer.hidden ==> !layers.covers(i)
            &&& !layer.origin_x_near || !layer.origin_y_near ==> !layers.covers(i)
            &&& layer.opacity != 0x3f80_0000 ==> !layers.covers(i)
            &&& layer.anchor_x != 0x3f00_0000 || layer.anchor_y != 0x3f00_0000 ==> !layers.covers(i)
            &&& !(layer.size.x && layer.size.y) && !(layer.size.x_turned && layer.size.y_turned)
                ==> !layers.covers(i)
            &&& !(layer.position.x && layer.position.y) && !(layer.position.x_turned
                && layer.position.y_turned) ==> !layers.covers(i)
            &&& !layer.hidden && layer.origin_x_near && layer.origin_y_near && layer.opacity
                == 0x3f80_0000 && layer.anchor_x == 0x3f00_0000 && layer.anchor_y == 0x3f00_0000
                && ((layer.size.x && layer.size.y) || (layer.size.x_turned && layer.size.y_turned))
                && ((layer.position.x && layer.position.y) || (layer.position.x_turned
                && layer.position.y_turned)) ==> layers.covers(i)
        }),
{
}

/// A layer on top can be passed over only if it is small, on a screen that has an area, and
/// neither edited nor in focus.
pub proof fn law_ignorable(layers: Layers, i: int)
    ensures
        layers.ignorable(i) <==> layers.screen_has_area && !(layers.layers@[i].is_large
            || layers.layers@[i].is_editing || layers.layers@[i].is_focused),
{
}

/// The layer that counts among those on top of another is the highest that cannot be
/// passed over.
pub proof fn law_top_sublayer(layers: Layers, i: int, n: nat, k: int)
    requires
        n <= layers.layers@[i].sublayers@.len(),
    ensures
        0 <= k < n && !layers.ignorable(layers.layers@[i].sublayers@[k] as int) && (forall|j: int|
            k < j < n ==> layers.ignorable(#[trigger] layers.layers@[i].sublayers@[j] as int))
            ==> layers.top_sublayer(i, n) == Some(layers.layers@[i].sublayers@[k]),
        (forall|j: int|
            0 <= j < n ==> layers.ignorable(#[trigger] layers.layers@[i].sublayers@[j] as int))
            ==> layers.top_sublayer(i, n) is None,
    decreases n,
{
    if n > 0 {
        law_top_sublayer(layers, i, (n - 1) as nat, k);
        let last = layers.layers@[i].sublayers@[n - 1];
        assert(layers.ignorable(last as int) || !layers.ignorable(last as int));
    }
}

/// The layer that fills the screen alone is the one that is looked at, if it fills it, is
/// opaque and can be drawn directly and nothing that counts is on top of it; else it is
/// looked for in the layer on top that counts.
pub proof fn law_layer_is_found(layers: Layers, i: int)
    requires
        layers.wf(),
        0 <= i < layers.layers@.len(),
        layers.layers@.len() <= usize::MAX,
    ensures
        !layers.covers(i) ==> layers.found_from(i) is None,
        layers.covers(i) && layers.top_sublayer(i, layers.layers@[i].sublayers@.len()) is None
            && layers.layers@[i].opaque && layers.layers@[i].is_eagl ==> layers.found_from(i)
            == Some(i as usize),
        layers.covers(i) && layers.top_sublayer(i, layers.layers@[i].sublayers@.len()) is None && (
        !layers.layers@[i].opaque || !layers.layers@[i].is_eagl) ==> layers.found_from(i) is None,
        layers.covers(i) ==> (layers.top_sublayer(
            i,
            layers.layers@[i].sublayers@.len(),
        ) matches Some(next) ==> layers.found_from(i) == layers.found_from(next as int)),
{
    lemma_top_is_sublayer(layers, i, layers.layers@[i].sublayers@.len());
}

proof fn lemma_top_is_sublayer(layers: Layers, i: int, n: nat)
    requires
        n <= layers.layers@[i].sublayers@.len(),
    ensures
        layers.top_sublayer(i, n) matches Some(next) ==> exists|k: int|
            0 <= k < n && #[trigger] layers.layers@[i].sublayers@[k] == next,
    decreases n,
{
    if n > 0 {
        lemma_top_is_sublayer(layers, i, (n - 1) as nat);
        assert(layers.layers@[i].sublayers@[n - 1] == layers.layers@[i].sublayers@[n - 1]);
    }
}

/// The window that counts is the last that is not hidden.
pub proof fn law_top_window(windows: Seq<Window>, n: nat, k: int)
    requires
        n <= windows.len(),
    ensures
        0 <= k < n && !windows[k].hidden && (forall|j: int|
            k < j < n ==> (#[trigger] windows[j]).hidden) ==> top_window(windows, n) == Some(
            windows[k],
        ),
        (forall|j: int| 0 <= j < n ==> (#[trigger] windows[j]).hidden) ==> top_window(windows, n)
            is None,
    decreases n,
{
    if n > 0 {
        law_top_window(windows, (n - 1) as nat, k);
        assert(windows[n - 1].hidden || !windows[n - 1].hidden);
    }
}

} // verus!
