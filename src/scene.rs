use vstd::prelude::*;
use crate::anim::{AnimEntry, ANIM_REPEAT, ANIM_REVERSE, ANIM_EXTRAPOLATE, law_exact_duration, law_repeat_reverse_cycle, law_extrapolate, has_flag, sat_add, step_entry, step_result};
use crate::ident::Ident;
use crate::resources::{Resources, ResourceError, ImageHandle, l2d_image_format, load_effect, load_result, release_all, release_refs};

verus! {

/// Origin at the left edge of the sprite (else centred horizontally).
pub const SPRITE_ANCHOR_LEFT: u32 = 1024;
/// Origin at the top edge of the sprite (else centred vertically).
pub const SPRITE_ANCHOR_TOP: u32 = 2048;
/// Origin at the right edge of the sprite.
pub const SPRITE_ANCHOR_RIGHT: u32 = 4096;
/// Origin at the bottom edge of the sprite.
pub const SPRITE_ANCHOR_BOTTOM: u32 = 8192;

/// Animatable properties of a sprite, as indices into its values.
pub const PROP_X: usize = 0;
pub const PROP_Y: usize = 1;
pub const PROP_SCALE: usize = 2;
pub const PROP_ROT: usize = 3;
pub const PROP_A: usize = 4;
pub const PROP_R: usize = 5;
pub const PROP_G: usize = 6;
pub const PROP_B: usize = 7;
pub const NPROPS: usize = 8;

/// How a sprite's pixels combine with what lies below.
#[allow(non_camel_case_types)]
#[derive(Clone, Copy, Debug, PartialEq, Eq, Structural)]
pub enum l2d_blend {
    l2d_BLEND_DISABLED,
    l2d_BLEND_DEFAULT,
    l2d_BLEND_PREMULT,
}

#[derive(Clone, Copy, Debug, PartialEq, Eq, Structural)]
pub enum SceneError {
    /// The sprite was deleted, or its scene destroyed.
    InvalidSprite,
    /// The parent would make the sprite its own ancestor.
    InvalidParent,
    /// No such sequence or frame on the sprite.
    InvalidSequenceFrame,
    /// A sequence cannot play at zero speed.
    InvalidSpeed,
    /// An image could not be loaded.
    Resource(ResourceError),
}

/// An animation entry driving one property.
#[derive(Clone, Copy, Debug, PartialEq, Eq, Structural)]
pub struct PropAnim {
    pub prop: usize,
    pub entry: AnimEntry,
}

/// One frame of a sequence: an image shown for `duration` milliseconds.
#[derive(Clone, Copy, Debug, PartialEq, Eq, Structural)]
pub struct Frame {
    pub image: Ident,
    pub duration: u32,
    pub flags: u32,
}

/// Playback state of a sequence. `speed` is in percent of normal speed.
#[derive(Clone, Copy, Debug, PartialEq, Eq, Structural)]
pub struct Player {
    pub seq: usize,
    pub frame: usize,
    pub elapsed: u64,
    pub speed: u32,
    pub flags: u32,
    pub playing: bool,
}

/// A sprite's state inside its scene.
pub struct Node {
    pub alive: bool,
    pub visible: bool,
    pub parent: Option<usize>,
    pub order: i32,
    pub values: Vec<i32>,
    pub anims: Vec<PropAnim>,
    pub image: Option<Ident>,
    pub width: u32,
    pub height: u32,
    pub sprite_flags: u32,
    pub blend: l2d_blend,
    pub stop_anims_on_hide: bool,
    pub sequences: Vec<Vec<Frame>>,
    pub player: Option<Player>,
    /// Cached images this sprite holds a reference to.
    pub held: Vec<ImageHandle>,
}

/// Handle of a sprite: the slot of its node in the scene. Slots are never reused.
#[derive(Clone, Copy, Debug, PartialEq, Eq, Structural)]
pub struct Sprite {
    pub slot: usize,
}

/// A tree of sprites with the resources they draw from.
pub struct Scene {
    nodes: Vec<Node>,
    resources: Resources,
    camera_anims: Vec<PropAnim>,
    camera_values: Vec<i32>,
    viewport_w: u32,
    viewport_h: u32,
}

pub open spec fn node_wf(n: Node, count: nat) -> bool {
    &&& n.values@.len() == NPROPS
    &&& forall|k: int| 0 <= k < n.anims@.len() ==> (#[trigger] n.anims@[k]).prop < NPROPS
        && n.anims@[k].entry.wf()
    &&& n.parent matches Some(p) ==> p < count
    &&& n.player matches Some(p) ==> p.seq < n.sequences@.len() && p.frame < n.sequences@[p.seq as int]@.len()
        && p.speed > 0
}

/// The animation entries without those of one property.
pub open spec fn without_prop(a: Seq<PropAnim>, prop: usize) -> Seq<PropAnim>
    decreases a.len(),
{
    if a.len() == 0 {
        a
    } else {
        let s = without_prop(a.drop_last(), prop);
        if a.last().prop == prop {
            s
        } else {
            s.push(a.last())
        }
    }
}

proof fn lemma_without_prop_wf(a: Seq<PropAnim>, prop: usize)
    requires
        forall|k: int| 0 <= k < a.len() ==> (#[trigger] a[k]).prop < NPROPS && a[k].entry.wf(),
    ensures
        forall|k: int| 0 <= k < without_prop(a, prop).len()
            ==> (#[trigger] without_prop(a, prop)[k]).prop < NPROPS && without_prop(a, prop)[k].entry.wf()
                && without_prop(a, prop)[k].prop != prop,
    decreases a.len(),
{
    if a.len() > 0 {
        let d = a.drop_last();
        assert forall|k: int| 0 <= k < d.len() implies (#[trigger] d[k]).prop < NPROPS && d[k].entry.wf() by {
            assert(d[k] == a[k]);
        }
        lemma_without_prop_wf(d, prop);
        assert(a.last() == a[a.len() - 1]);
        let w = without_prop(a, prop);
        let sd = without_prop(d, prop);
        assert forall|k: int| 0 <= k < w.len()
            implies (#[trigger] w[k]).prop < NPROPS && w[k].entry.wf() && w[k].prop != prop by {
            if k < sd.len() {
                assert(w[k] == sd[k]);
            }
        }
    }
}

impl Scene {
    pub closed spec fn nodes(&self) -> Seq<Node> {
        self.nodes@
    }

    pub closed spec fn res(&self) -> Resources {
        self.resources
    }

    /// Camera offset: animation entries and values, with x, y and z at
    /// `PROP_X`, `PROP_Y` and `PROP_SCALE`.
    pub closed spec fn camera(&self) -> (Seq<PropAnim>, Seq<i32>) {
        (self.camera_anims@, self.camera_values@)
    }

    pub open spec fn wf(&self) -> bool {
        &&& self.res().wf()
        &&& self.camera().1.len() == NPROPS
        &&& forall|k: int| 0 <= k < self.camera().0.len() ==> (#[trigger] self.camera().0[k]).prop < NPROPS
            && self.camera().0[k].entry.wf()
        &&& forall|i: int| 0 <= i < self.nodes().len() ==> node_wf(#[trigger] self.nodes()[i], self.nodes().len())
    }

    /// Whether the handle names a live sprite of this scene.
    pub open spec fn valid(&self, s: Sprite) -> bool {
        s.slot < self.nodes().len() && self.nodes()[s.slot as int].alive
    }

    /// A scene with no sprites, drawing from `resources`.
    pub fn new(resources: Resources) -> (r: Scene)
        requires
            resources.wf(),
        ensures
            r.wf(),
            r.nodes().len() == 0,
            r.res() == resources,
            r.camera().0.len() == 0,
            r.camera().1 == seq![0i32, 0, 0, 0, 0, 0, 0, 0],
    {
        let r = Scene {
            nodes: Vec::new(),
            resources,
            camera_anims: Vec::new(),
            camera_values: vec![0, 0, 0, 0, 0, 0, 0, 0],
            viewport_w: 0,
            viewport_h: 0,
        };
        proof {
            assert(r.camera().1 =~= seq![0i32, 0, 0, 0, 0, 0, 0, 0]);
        }
        r
    }

    pub fn get_resources(&self) -> (r: &Resources)
        ensures
            *r == self.res(),
    {
        &self.resources
    }

    /// Registers pixel data for an image name with the scene's resources.
    pub fn set_image_data(
        &mut self,
        key: Ident,
        width: u32,
        height: u32,
        format: l2d_image_format,
        data: Vec<u8>,
    ) -> (r: Result<(), ResourceError>)
        requires
            old(self).wf(),
        ensures
            final(self).wf(),
            final(self).nodes() == old(self).nodes(),
            r.is_ok() == (data@.len() == crate::resources::image_len(
                crate::resources::ImageInfo { key, flags: 0, width, height, format })),
            final(self).camera() == old(self).camera(),
            final(self).res().images() == old(self).res().images(),
            final(self).res().refs() == old(self).res().refs(),
            r.is_err() ==> r == Err::<(), ResourceError>(ResourceError::DecodeFailure)
                && final(self).res().sources() == old(self).res().sources(),
            r.is_ok() ==> final(self).res().has_source(key)
                && final(self).res().source_info(key) == (crate::resources::ImageInfo { key, flags: 0, width, height, format })
                && forall|k: Ident| k != key ==> (#[trigger] final(self).res().has_source(k) == old(self).res().has_source(k)),
    {
        let r = self.resources.set_image_data(key, width, height, format, data);
        proof {
            assert(self.nodes() == old(self).nodes());
        }
        r
    }

    pub fn set_viewport(&mut self, w: u32, h: u32)
        requires
            old(self).wf(),
        ensures
            final(self).wf(),
            final(self).nodes() == old(self).nodes(),
            final(self).res() == old(self).res(),
            final(self).camera() == old(self).camera(),
            final(self).viewport_size() == (w, h),
    {
        self.viewport_w = w;
        self.viewport_h = h;
        proof {
            assert(self.nodes() == old(self).nodes());
        }
    }

    /// Viewport width and height.
    pub fn viewport(&self) -> (r: (u32, u32))
        ensures
            r == self.viewport_size(),
    {
        (self.viewport_w, self.viewport_h)
    }

    pub closed spec fn viewport_size(&self) -> (u32, u32) {
        (self.viewport_w, self.viewport_h)
    }

    /// Puts `n` in slot `i` and hands back what was there.
    fn swap_node(&mut self, i: usize, n: Node) -> (o: Node)
        requires
            i < old(self).nodes().len(),
        ensures
            final(self).nodes() == old(self).nodes().update(i as int, n),
            final(self).res() == old(self).res(),
            final(self).camera() == old(self).camera(),
            o == old(self).nodes()[i as int],
    {
        let o = self.nodes.remove(i);
        self.nodes.insert(i, n);
        proof {
            assert(self.nodes@ =~= old(self).nodes@.update(i as int, n));
        }
        o
    }

    /// Destroys every sprite of the scene: each handle of it is invalid
    /// afterwards, every sprite loses its animation entries, sequences and
    /// playback, and each image reference the sprites held is released.
    pub fn destroy(&mut self)
        requires
            old(self).wf(),
        ensures
            final(self).wf(),
            final(self).nodes().len() == old(self).nodes().len(),
            forall|s: Sprite| !final(self).valid(s),
            forall|j: int| 0 <= j < final(self).nodes().len() ==> {
                let n = #[trigger] final(self).nodes()[j];
                &&& n.anims@.len() == 0
                &&& n.sequences@.len() == 0
                &&& n.player.is_none()
                &&& n.held@.len() == 0
            },
            final(self).camera() == old(self).camera(),
            final(self).res().images() == old(self).res().images(),
            final(self).res().sources() == old(self).res().sources(),
            final(self).res().refs() == release_nodes(old(self).res().refs(), old(self).nodes()),
    {
        let mut i: usize = 0;
        while i < self.nodes.len()
            invariant
                self.wf(),
                i <= self.nodes().len(),
                self.nodes().len() == old(self).nodes().len(),
                forall|j: int| i <= j < self.nodes().len() ==> #[trigger] self.nodes()[j] == old(self).nodes()[j],
                forall|j: int| 0 <= j < i ==> {
                    let n = #[trigger] self.nodes()[j];
                    &&& !n.alive
                    &&& n.anims@.len() == 0
                    &&& n.sequences@.len() == 0
                    &&& n.player.is_none()
                    &&& n.held@.len() == 0
                },
                self.camera() == old(self).camera(),
                self.res().images() == old(self).res().images(),
                self.res().sources() == old(self).res().sources(),
                self.res().refs() == release_nodes(old(self).res().refs(), old(self).nodes().subrange(0, i as int)),
            decreases self.nodes().len() - i,
        {
            proof {
                assert(old(self).nodes().subrange(0, i + 1).drop_last() =~= old(self).nodes().subrange(0, i as int));
                assert(old(self).nodes().subrange(0, i + 1).last() == old(self).nodes()[i as int]);
            }
            let mut n = self.take_node(i);
            let held = n.held;
            n.held = Vec::new();
            n.alive = false;
            n.anims = Vec::new();
            n.player = None;
            n.sequences = Vec::new();
            self.put_node(i, n);
            self.release_held(&held);
            i = i + 1;
        }
        proof {
            assert(old(self).nodes().subrange(0, i as int) =~= old(self).nodes());
        }
    }

    /// Releases each handle in turn.
    fn release_held(&mut self, hs: &Vec<ImageHandle>)
        requires
            old(self).wf(),
        ensures
            final(self).wf(),
            final(self).nodes() == old(self).nodes(),
            final(self).camera() == old(self).camera(),
            final(self).res().images() == old(self).res().images(),
            final(self).res().sources() == old(self).res().sources(),
            final(self).res().refs() == release_all(old(self).res().refs(), hs@),
    {
        let mut i: usize = 0;
        while i < hs.len()
            invariant
                self.wf(),
                i <= hs@.len(),
                self.nodes() == old(self).nodes(),
                self.camera() == old(self).camera(),
                self.res().images() == old(self).res().images(),
                self.res().sources() == old(self).res().sources(),
                self.res().refs() == release_all(old(self).res().refs(), hs@.subrange(0, i as int)),
            decreases hs@.len() - i,
        {
            proof {
                assert(hs@.subrange(0, i + 1).drop_last() =~= hs@.subrange(0, i as int));
                assert(hs@.subrange(0, i + 1).last() == hs@[i as int]);
            }
            let _ = self.resources.image_release(hs[i]);
            proof {
                assert(self.nodes() == old(self).nodes());
            }
            i = i + 1;
        }
        proof {
            assert(hs@.subrange(0, i as int) =~= hs@);
        }
    }
}

/// Reference counts after each node, in order, releases the images it holds.
pub open spec fn release_nodes(refs: Seq<u64>, nodes: Seq<Node>) -> Seq<u64>
    decreases nodes.len(),
{
    if nodes.len() == 0 {
        refs
    } else {
        release_all(release_nodes(refs, nodes.drop_last()), nodes.last().held@)
    }
}

/// A placeholder node, never live.
fn empty_node() -> (r: Node)
    ensures
        node_wf(r, 0),
        !r.alive,
{
    Node {
        alive: false,
        visible: false,
        parent: None,
        order: 0,
        values: vec![0, 0, 0, 0, 0, 0, 0, 0],
        anims: Vec::new(),
        image: None,
        width: 0,
        height: 0,
        sprite_flags: 0,
        blend: l2d_blend::l2d_BLEND_DEFAULT,
        stop_anims_on_hide: false,
        sequences: Vec::new(),
        player: None,
        held: Vec::new(),
    }
}

/// Animation entries and property values after starting an animation of
/// `prop` toward `value`: an earlier entry of that property is dropped; a
/// zero duration sets the value at once.
pub open spec fn anim_set(st: (Seq<PropAnim>, Seq<i32>), prop: usize, value: i32, dt: u32, flags: u32) -> (
    Seq<PropAnim>,
    Seq<i32>,
) {
    let rest = without_prop(st.0, prop);
    if dt == 0 {
        (rest, st.1.update(prop as int, value))
    } else {
        (rest.push(PropAnim {
            prop,
            entry: AnimEntry { start: st.1[prop as int], target: value, elapsed: 0, duration: dt, flags },
        }), st.1)
    }
}

/// Two nodes agree on everything but their animation entries and values.
pub open spec fn same_but_anims(a: Node, b: Node) -> bool {
    &&& a.alive == b.alive
    &&& a.visible == b.visible
    &&& a.parent == b.parent
    &&& a.order == b.order
    &&& a.image == b.image
    &&& a.width == b.width
    &&& a.height == b.height
    &&& a.sprite_flags == b.sprite_flags
    &&& a.blend == b.blend
    &&& a.stop_anims_on_hide == b.stop_anims_on_hide
    &&& a.sequences@ == b.sequences@
    &&& a.player == b.player
    &&& a.held@ == b.held@
}

fn drop_prop(anims: &Vec<PropAnim>, prop: usize) -> (r: Vec<PropAnim>)
    ensures
        r@ == without_prop(anims@, prop),
{
    let mut r: Vec<PropAnim> = Vec::new();
    let mut i: usize = 0;
    while i < anims.len()
        invariant
            i <= anims@.len(),
            r@ == without_prop(anims@.subrange(0, i as int), prop),
        decreases anims@.len() - i,
    {
        proof {
            assert(anims@.subrange(0, i + 1).drop_last() =~= anims@.subrange(0, i as int));
        }
        if anims[i].prop != prop {
            r.push(anims[i]);
        }
        i = i + 1;
    }
    proof {
        assert(anims@.subrange(0, i as int) =~= anims@);
    }
    r
}

impl Scene {
    /// Starts an animation of one property of a sprite.
    fn animate(&mut self, s: Sprite, prop: usize, value: i32, dt: u32, flags: u32) -> (r: Result<(), SceneError>)
        requires
            old(self).wf(),
            prop < NPROPS,
        ensures
            final(self).wf(),
            final(self).res() == old(self).res(),
            final(self).camera() == old(self).camera(),
            final(self).nodes().len() == old(self).nodes().len(),
            r.is_ok() == old(self).valid(s),
            r.is_err() ==> r == Err::<(), SceneError>(SceneError::InvalidSprite) && final(self).nodes() == old(self).nodes(),
            r.is_ok() ==> {
                let o = old(self).nodes()[s.slot as int];
                let n = final(self).nodes()[s.slot as int];
                &&& same_but_anims(o, n)
                &&& (n.anims@, n.values@) == anim_set((o.anims@, o.values@), prop, value, dt, flags)
                &&& forall|j: int| 0 <= j < final(self).nodes().len() && j != s.slot ==> final(self).nodes()[j] == old(self).nodes()[j]
            },
    {
        if s.slot >= self.nodes.len() || !self.nodes[s.slot].alive {
            return Err(SceneError::InvalidSprite);
        }
        let ghost count = self.nodes().len();
        let mut n = self.swap_node(s.slot, empty_node());
        let ghost o = n;
        assert(node_wf(o, count));
        let mut anims = drop_prop(&n.anims, prop);
        proof {
            lemma_without_prop_wf(o.anims@, prop);
        }
        if dt == 0 {
            n.values.set(prop, value);
        } else {
            let start = n.values[prop];
            anims.push(PropAnim { prop, entry: AnimEntry::new(start, value, dt, flags) });
        }
        n.anims = anims;
        let _ = self.swap_node(s.slot, n);
        proof {
            assert(node_wf(self.nodes()[s.slot as int], count));
            assert forall|j: int| 0 <= j < self.nodes().len() implies node_wf(#[trigger] self.nodes()[j], self.nodes().len()) by {
                if j != s.slot {
                    assert(self.nodes()[j] == old(self).nodes()[j]);
                }
            }
        }
        Ok(())
    }
}

impl Sprite {
    /// Creates a sprite showing the image `image` loaded with `flags`; when
    /// the image cannot be loaded the sprite shows nothing. The sprite holds a
    /// reference to the loaded image until it is deleted. Its values start
    /// at zero but for scale and the colour channels, which start at 1000.
    pub fn new(scene: &mut Scene, image: Ident, flags: u32) -> (r: Sprite)
        requires
            old(scene).wf(),
        ensures
            final(scene).wf(),
            load_effect(old(scene).res(), final(scene).res(), image, flags),
            final(scene).camera() == old(scene).camera(),
            r.slot == old(scene).nodes().len(),
            final(scene).nodes().len() == old(scene).nodes().len() + 1,
            forall|j: int| 0 <= j < old(scene).nodes().len() ==> final(scene).nodes()[j] == old(scene).nodes()[j],
            final(scene).valid(r),
            final(scene).nodes()[r.slot as int].image == (if load_result(old(scene).res(), image, flags).is_ok() {
                Some(image)
            } else {
                None
            }),
            final(scene).nodes()[r.slot as int].held@ == (match load_result(old(scene).res(), image, flags) {
                Ok(h) => seq![h],
                Err(_) => Seq::<ImageHandle>::empty(),
            }),
            final(scene).nodes()[r.slot as int].values@ == seq![0i32, 0, 1000, 0, 1000, 1000, 1000, 1000],
            final(scene).nodes()[r.slot as int].anims@.len() == 0,
            final(scene).nodes()[r.slot as int].parent.is_none(),
            final(scene).nodes()[r.slot as int].visible,
            final(scene).nodes()[r.slot as int].order == 0,
            final(scene).nodes()[r.slot as int].sprite_flags == 0,
            final(scene).nodes()[r.slot as int].width == 0,
            final(scene).nodes()[r.slot as int].height == 0,
            final(scene).nodes()[r.slot as int].player.is_none(),
            final(scene).nodes()[r.slot as int].sequences@.len() == 0,
    {
        let loaded = scene.resources.load_image(image, flags);
        let shown = match loaded {
            Ok(_) => Some(image),
            Err(_) => None,
        };
        let mut held: Vec<ImageHandle> = Vec::new();
        if let Ok(h) = loaded {
            held.push(h);
        }
        proof {
            match loaded {
                Ok(h) => assert(held@ =~= seq![h]),
                Err(_) => assert(held@ =~= Seq::<ImageHandle>::empty()),
            }
        }
        let n = Node {
            alive: true,
            visible: true,
            parent: None,
            order: 0,
            values: vec![0, 0, 1000, 0, 1000, 1000, 1000, 1000],
            anims: Vec::new(),
            image: shown,
            width: 0,
            height: 0,
            sprite_flags: 0,
            blend: l2d_blend::l2d_BLEND_DEFAULT,
            stop_anims_on_hide: false,
            sequences: Vec::new(),
            player: None,
            held,
        };
        let slot = scene.nodes.len();
        let ghost before = scene.nodes();
        scene.nodes.push(n);
        proof {
            assert(scene.nodes()[slot as int] == n);
            assert(n.values@ =~= seq![0i32, 0, 1000, 0, 1000, 1000, 1000, 1000]);
            assert forall|j: int| 0 <= j < scene.nodes().len() implies node_wf(#[trigger] scene.nodes()[j], scene.nodes().len()) by {
                if j < slot {
                    assert(scene.nodes()[j] == before[j]);
                    assert(node_wf(before[j], before.len()));
                }
            }
        }
        Sprite { slot }
    }

    /// Moves the sprite to (`x`, `y`) over `dt` milliseconds.
    pub fn xy(&self, scene: &mut Scene, x: i32, y: i32, dt: u32, anim_flags: u32) -> (r: Result<(), SceneError>)
        requires
            old(scene).wf(),
        ensures
            final(scene).wf(),
            final(scene).res() == old(scene).res(),
            final(scene).camera() == old(scene).camera(),
            final(scene).nodes().len() == old(scene).nodes().len(),
            r.is_ok() == old(scene).valid(*self),
            r.is_err() ==> r == Err::<(), SceneError>(SceneError::InvalidSprite) && final(scene).nodes() == old(scene).nodes(),
            r.is_ok() ==> {
                let o = old(scene).nodes()[self.slot as int];
                let n = final(scene).nodes()[self.slot as int];
                &&& forall|j: int| 0 <= j < final(scene).nodes().len() && j != self.slot ==> final(scene).nodes()[j] == old(scene).nodes()[j]
                &&& same_but_anims(o, n)
                &&& (n.anims@, n.values@) == anim_set(anim_set((o.anims@, o.values@), PROP_X, x, dt, anim_flags),
                    PROP_Y, y, dt, anim_flags)
            },
    {
        scene.animate(*self, PROP_X, x, dt, anim_flags)?;
        scene.animate(*self, PROP_Y, y, dt, anim_flags)
    }
    /// Fades the sprite's alpha to `a` (1000 is opaque) over `dt` milliseconds.
    pub fn a(&self, scene: &mut Scene, a: i32, dt: u32, anim_flags: u32) -> (r: Result<(), SceneError>)
        requires
            old(scene).wf(),
        ensures
            final(scene).wf(),
            final(scene).res() == old(scene).res(),
            final(scene).camera() == old(scene).camera(),
            final(scene).nodes().len() == old(scene).nodes().len(),
            r.is_ok() == old(scene).valid(*self),
            r.is_err() ==> r == Err::<(), SceneError>(SceneError::InvalidSprite) && final(scene).nodes() == old(scene).nodes(),
            r.is_ok() ==> {
                let o = old(scene).nodes()[self.slot as int];
                let n = final(scene).nodes()[self.slot as int];
                &&& forall|j: int| 0 <= j < final(scene).nodes().len() && j != self.slot ==> final(scene).nodes()[j] == old(scene).nodes()[j]
                &&& same_but_anims(o, n)
                &&& (n.anims@, n.values@) == anim_set((o.anims@, o.values@), PROP_A, a, dt, anim_flags)
            },
    {
        scene.animate(*self, PROP_A, a, dt, anim_flags)
    }

    /// Tints the colour channels (1000 is full) over `dt` milliseconds; alpha is left alone.
    pub fn rgb(&self, scene: &mut Scene, r: i32, g: i32, b: i32, dt: u32, anim_flags: u32) -> (res: Result<(), SceneError>)
        requires
            old(scene).wf(),
        ensures
            final(scene).wf(),
            final(scene).res() == old(scene).res(),
            final(scene).camera() == old(scene).camera(),
            final(scene).nodes().len() == old(scene).nodes().len(),
            res.is_ok() == old(scene).valid(*self),
            res.is_err() ==> res == Err::<(), SceneError>(SceneError::InvalidSprite) && final(scene).nodes() == old(scene).nodes(),
            res.is_ok() ==> {
                let o = old(scene).nodes()[self.slot as int];
                let n = final(scene).nodes()[self.slot as int];
                &&& forall|j: int| 0 <= j < final(scene).nodes().len() && j != self.slot ==> final(scene).nodes()[j] == old(scene).nodes()[j]
                &&& same_but_anims(o, n)
                &&& (n.anims@, n.values@) == anim_set(anim_set(anim_set((o.anims@, o.values@), PROP_R, r, dt, anim_flags), PROP_G, g, dt, anim_flags), PROP_B, b, dt, anim_flags)
            },
    {
        scene.animate(*self, PROP_R, r, dt, anim_flags)?;
        scene.animate(*self, PROP_G, g, dt, anim_flags)?;
        scene.animate(*self, PROP_B, b, dt, anim_flags)
    }

    /// Tints the colour channels and alpha over `dt` milliseconds.
    pub fn rgba(&self, scene: &mut Scene, r: i32, g: i32, b: i32, a: i32, dt: u32, anim_flags: u32) -> (res: Result<(), SceneError>)
        requires
            old(scene).wf(),
        ensures
            final(scene).wf(),
            final(scene).res() == old(scene).res(),
            final(scene).camera() == old(scene).camera(),
            final(scene).nodes().len() == old(scene).nodes().len(),
            res.is_ok() == old(scene).valid(*self),
            res.is_err() ==> res == Err::<(), SceneError>(SceneError::InvalidSprite) && final(scene).nodes() == old(scene).nodes(),
            res.is_ok() ==> {
                let o = old(scene).nodes()[self.slot as int];
                let n = final(scene).nodes()[self.slot as int];
                &&& forall|j: int| 0 <= j < final(scene).nodes().len() && j != self.slot ==> final(scene).nodes()[j] == old(scene).nodes()[j]
                &&& same_but_anims(o, n)
                &&& (n.anims@, n.values@) == anim_set(anim_set(anim_set(anim_set((o.anims@, o.values@), PROP_R, r, dt, anim_flags), PROP_G, g, dt, anim_flags), PROP_B, b, dt, anim_flags), PROP_A, a, dt, anim_flags)
            },
    {
        scene.animate(*self, PROP_R, r, dt, anim_flags)?;
        scene.animate(*self, PROP_G, g, dt, anim_flags)?;
        scene.animate(*self, PROP_B, b, dt, anim_flags)?;
        scene.animate(*self, PROP_A, a, dt, anim_flags)
    }

    /// Scales the sprite (1000 is unscaled) over `dt` milliseconds.
    pub fn scale(&self, scene: &mut Scene, scale: i32, dt: u32, anim_flags: u32) -> (r: Result<(), SceneError>)
        requires
            old(scene).wf(),
        ensures
            final(scene).wf(),
            final(scene).res() == old(scene).res(),
            final(scene).camera() == old(scene).camera(),
            final(scene).nodes().len() == old(scene).nodes().len(),
            r.is_ok() == old(scene).valid(*self),
            r.is_err() ==> r == Err::<(), SceneError>(SceneError::InvalidSprite) && final(scene).nodes() == old(scene).nodes(),
            r.is_ok() ==> {
                let o = old(scene).nodes()[self.slot as int];
                let n = final(scene).nodes()[self.slot as int];
                &&& forall|j: int| 0 <= j < final(scene).nodes().len() && j != self.slot ==> final(scene).nodes()[j] == old(scene).nodes()[j]
                &&& same_but_anims(o, n)
                &&& (n.anims@, n.values@) == anim_set((o.anims@, o.values@), PROP_SCALE, scale, dt, anim_flags)
            },
    {
        scene.animate(*self, PROP_SCALE, scale, dt, anim_flags)
    }

    /// Rotates the sprite to `rot` over `dt` milliseconds.
    pub fn rot(&self, scene: &mut Scene, rot: i32, dt: u32, anim_flags: u32) -> (r: Result<(), SceneError>)
        requires
            old(scene).wf(),
        ensures
            final(scene).wf(),
            final(scene).res() == old(scene).res(),
            final(scene).camera() == old(scene).camera(),
            final(scene).nodes().len() == old(scene).nodes().len(),
            r.is_ok() == old(scene).valid(*self),
            r.is_err() ==> r == Err::<(), SceneError>(SceneError::InvalidSprite) && final(scene).nodes() == old(scene).nodes(),
            r.is_ok() ==> {
                let o = old(scene).nodes()[self.slot as int];
                let n = final(scene).nodes()[self.slot as int];
                &&& forall|j: int| 0 <= j < final(scene).nodes().len() && j != self.slot ==> final(scene).nodes()[j] == old(scene).nodes()[j]
                &&& same_but_anims(o, n)
                &&& (n.anims@, n.values@) == anim_set((o.anims@, o.values@), PROP_ROT, rot, dt, anim_flags)
            },
    {
        scene.animate(*self, PROP_ROT, rot, dt, anim_flags)
    }
}

/// Entries and values after stepping each entry by `dt`, in order; an entry
/// that ends leaves its final value and is dropped.
pub open spec fn step_anims(a: Seq<PropAnim>, v: Seq<i32>, dt: u64) -> (Seq<PropAnim>, Seq<i32>)
    decreases a.len(),
{
    if a.len() == 0 {
        (a, v)
    } else {
        let pre = step_anims(a.drop_last(), v, dt);
        let e = a.last();
        let r = step_result(e.entry, dt);
        (
            if r.done {
                pre.0
            } else {
                pre.0.push(PropAnim { prop: e.prop, entry: step_entry(e.entry, dt) })
            },
            pre.1.update(e.prop as int, r.value),
        )
    }
}

/// How long a frame shows at `speed` percent: at least one millisecond.
pub open spec fn frame_time(duration: u32, speed: u32) -> u64 {
    let t = (duration * 100) as int / speed as int;
    if t == 0 {
        1
    } else {
        t as u64
    }
}

/// Playback after using up the time already elapsed: frames whose time is
/// over are passed; past the last frame playback loops with repeat, or
/// stops on the last frame.
pub open spec fn advance(frames: Seq<Frame>, p: Player) -> Player
    decreases p.elapsed,
{
    if !p.playing || p.frame >= frames.len() || p.speed == 0 {
        p
    } else {
        let t = frame_time(frames[p.frame as int].duration, p.speed);
        if p.elapsed < t {
            p
        } else if p.frame + 1 < frames.len() {
            advance(frames, Player { frame: (p.frame + 1) as usize, elapsed: (p.elapsed - t) as u64, ..p })
        } else if has_flag(p.flags, ANIM_REPEAT) {
            advance(frames, Player { frame: 0, elapsed: (p.elapsed - t) as u64, ..p })
        } else {
            Player { playing: false, elapsed: 0, ..p }
        }
    }
}

/// Playback after `dt` more milliseconds.
pub open spec fn step_player(frames: Seq<Frame>, p: Player, dt: u64) -> Player {
    if p.playing {
        advance(frames, Player { elapsed: sat_add(p.elapsed, dt), ..p })
    } else {
        p
    }
}

/// `n` is `o` after one step of `dt` milliseconds.
pub open spec fn stepped(o: Node, n: Node, dt: u64) -> bool {
    &&& same_but_anims_player_image(o, n)
    &&& if !o.alive {
        n.anims@ == o.anims@ && n.values@ == o.values@ && n.player == o.player && n.image == o.image
    } else {
        &&& (n.anims@, n.values@) == step_anims(o.anims@, o.values@, dt)
        &&& match o.player {
            Some(p) => {
                let q = step_player(o.sequences@[p.seq as int]@, p, dt);
                n.player == Some(q) && n.image == Some(o.sequences@[p.seq as int]@[q.frame as int].image)
            },
            None => n.player.is_none() && n.image == o.image,
        }
    }
}

/// Two nodes agree on everything that a step leaves alone.
pub open spec fn same_but_anims_player_image(a: Node, b: Node) -> bool {
    &&& a.alive == b.alive
    &&& a.visible == b.visible
    &&& a.parent == b.parent
    &&& a.order == b.order
    &&& a.width == b.width
    &&& a.height == b.height
    &&& a.sprite_flags == b.sprite_flags
    &&& a.blend == b.blend
    &&& a.stop_anims_on_hide == b.stop_anims_on_hide
    &&& a.sequences@ == b.sequences@
    &&& a.held@ == b.held@
}

proof fn lemma_step_anims_wf(a: Seq<PropAnim>, v: Seq<i32>, dt: u64)
    requires
        v.len() == NPROPS,
        forall|k: int| 0 <= k < a.len() ==> (#[trigger] a[k]).prop < NPROPS && a[k].entry.wf(),
    ensures
        step_anims(a, v, dt).1.len() == NPROPS,
        forall|k: int| 0 <= k < step_anims(a, v, dt).0.len()
            ==> (#[trigger] step_anims(a, v, dt).0[k]).prop < NPROPS && step_anims(a, v, dt).0[k].entry.wf(),
    decreases a.len(),
{
    if a.len() > 0 {
        let d = a.drop_last();
        assert forall|k: int| 0 <= k < d.len() implies (#[trigger] d[k]).prop < NPROPS && d[k].entry.wf() by {
            assert(d[k] == a[k]);
        }
        lemma_step_anims_wf(d, v, dt);
        assert(a.last() == a[a.len() - 1]);
        let w = step_anims(a, v, dt).0;
        let pre = step_anims(d, v, dt).0;
        assert forall|k: int| 0 <= k < w.len() implies (#[trigger] w[k]).prop < NPROPS && w[k].entry.wf() by {
            if k < pre.len() {
                assert(w[k] == pre[k]);
            }
        }
    }
}

fn step_anim_list(anims: &Vec<PropAnim>, values: &mut Vec<i32>, dt: u64) -> (r: Vec<PropAnim>)
    requires
        old(values)@.len() == NPROPS,
        forall|k: int| 0 <= k < anims@.len() ==> (#[trigger] anims@[k]).prop < NPROPS && anims@[k].entry.wf(),
    ensures
        (r@, final(values)@) == step_anims(anims@, old(values)@, dt),
{
    let mut r: Vec<PropAnim> = Vec::new();
    let mut i: usize = 0;
    while i < anims.len()
        invariant
            i <= anims@.len(),
            forall|k: int| 0 <= k < anims@.len() ==> (#[trigger] anims@[k]).prop < NPROPS && anims@[k].entry.wf(),
            (r@, values@) == step_anims(anims@.subrange(0, i as int), old(values)@, dt),
            values@.len() == NPROPS,
        decreases anims@.len() - i,
    {
        proof {
            assert(anims@.subrange(0, i + 1).drop_last() =~= anims@.subrange(0, i as int));
            assert(anims@.subrange(0, i + 1).last() == anims@[i as int]);
        }
        let pa = anims[i];
        let mut e = pa.entry;
        let res = e.step(dt);
        values.set(pa.prop, res.value);
        if !res.done {
            r.push(PropAnim { prop: pa.prop, entry: e });
        }
        i = i + 1;
    }
    proof {
        assert(anims@.subrange(0, i as int) =~= anims@);
    }
    r
}

fn frame_time_exec(duration: u32, speed: u32) -> (r: u64)
    requires
        speed > 0,
    ensures
        r == frame_time(duration, speed),
        r >= 1,
{
    let t: u64 = (duration as u64 * 100) / speed as u64;
    if t == 0 {
        1
    } else {
        t
    }
}

fn step_playback(frames: &Vec<Frame>, p: Player, dt: u64) -> (r: Player)
    requires
        p.frame < frames@.len(),
        p.speed > 0,
    ensures
        r == step_player(frames@, p, dt),
        r.frame < frames@.len(),
        r.seq == p.seq && r.speed == p.speed,
{
    if !p.playing {
        return p;
    }
    let mut q = p;
    q.elapsed = if p.elapsed > u64::MAX - dt {
        u64::MAX
    } else {
        p.elapsed + dt
    };
    loop
        invariant
            q.frame < frames@.len(),
            p.speed > 0,
            q.speed == p.speed && q.seq == p.seq && q.flags == p.flags,
            q.playing,
            advance(frames@, q) == step_player(frames@, p, dt),
        decreases q.elapsed,
    {
        let t = frame_time_exec(frames[q.frame].duration, q.speed);
        if q.elapsed < t {
            return q;
        }
        if q.frame < frames.len() - 1 {
            q = Player { frame: q.frame + 1, elapsed: q.elapsed - t, ..q };
        } else if q.flags & ANIM_REPEAT != 0 {
            q = Player { frame: 0, elapsed: q.elapsed - t, ..q };
        } else {
            return Player { playing: false, elapsed: 0, ..q };
        }
    }
}

/// One node after a step of `dt` milliseconds.
fn step_node(n: Node, dt: u64, Ghost(count): Ghost<nat>) -> (r: Node)
    requires
        node_wf(n, count),
    ensures
        node_wf(r, count),
        stepped(n, r, dt),
{
    let mut n = n;
    let ghost o = n;
    if n.alive {
        proof {
            lemma_step_anims_wf(o.anims@, o.values@, dt);
        }
        let anims = step_anim_list(&n.anims, &mut n.values, dt);
        n.anims = anims;
        assert(n.values@.len() == NPROPS);
        assert forall|k: int| 0 <= k < n.anims@.len() implies (#[trigger] n.anims@[k]).prop < NPROPS
            && n.anims@[k].entry.wf() by {
            assert(n.anims@[k] == step_anims(o.anims@, o.values@, dt).0[k]);
        }
        match n.player {
            Some(p) => {
                let q = step_playback(&n.sequences[p.seq], p, dt);
                n.image = Some(n.sequences[p.seq][q.frame].image);
                n.player = Some(q);
                assert(q.frame < n.sequences@[q.seq as int]@.len());
            },
            None => {},
        }
    }
    n
}

impl Scene {
    /// Advances every live sprite by `dt` milliseconds: each animation entry
    /// is stepped and sets its property, and a playing sequence moves on.
    pub fn step(&mut self, dt: u64)
        requires
            old(self).wf(),
        ensures
            final(self).wf(),
            final(self).res() == old(self).res(),
            final(self).nodes().len() == old(self).nodes().len(),
            forall|j: int| 0 <= j < old(self).nodes().len()
                ==> stepped(old(self).nodes()[j], #[trigger] final(self).nodes()[j], dt),
            final(self).camera() == step_anims(old(self).camera().0, old(self).camera().1, dt),
    {
        proof {
            let c = self.camera_anims@;
            assert forall|k: int| 0 <= k < c.len() implies (#[trigger] c[k]).prop < NPROPS && c[k].entry.wf() by {
                assert(c[k] == self.camera().0[k]);
            }
            lemma_step_anims_wf(c, self.camera().1, dt);
        }
        let cam = step_anim_list(&self.camera_anims, &mut self.camera_values, dt);
        self.camera_anims = cam;
        proof {
            let c = self.camera().0;
            assert forall|k: int| 0 <= k < c.len() implies (#[trigger] c[k]).prop < NPROPS && c[k].entry.wf() by {
                assert(c[k] == step_anims(old(self).camera().0, old(self).camera().1, dt).0[k]);
            }
            assert(self.nodes() == old(self).nodes());
        }
        let mut i: usize = 0;
        while i < self.nodes.len()
            invariant
                self.wf(),
                i <= self.nodes().len(),
                self.res() == old(self).res(),
                self.camera() == step_anims(old(self).camera().0, old(self).camera().1, dt),
                self.nodes().len() == old(self).nodes().len(),
                forall|j: int| 0 <= j < i ==> stepped(old(self).nodes()[j], #[trigger] self.nodes()[j], dt),
                forall|j: int| i <= j < self.nodes().len() ==> #[trigger] self.nodes()[j] == old(self).nodes()[j],
            decreases self.nodes().len() - i,
        {
            let ghost count = self.nodes().len();
            let n = self.take_node(i);
            let n = step_node(n, dt, Ghost(count));
            self.put_node(i, n);
            i = i + 1;
        }
    }
}

/// A live sprite with no animation entries and no sequence keeps its values
/// and image across a step of any length.
pub proof fn law_static_sprite_is_still(o: Node, n: Node, dt: u64)
    requires
        stepped(o, n, dt),
        o.anims@.len() == 0,
        o.player.is_none(),
    ensures
        n.values@ == o.values@,
        n.image == o.image,
        n.anims@.len() == 0,
        same_but_anims_player_image(o, n),
{
}

impl Scene {
    /// Takes the node of slot `i` out, leaving a placeholder.
    fn take_node(&mut self, i: usize) -> (n: Node)
        requires
            old(self).wf(),
            i < old(self).nodes().len(),
        ensures
            final(self).wf(),
            final(self).res() == old(self).res(),
            final(self).camera() == old(self).camera(),
            final(self).nodes().len() == old(self).nodes().len(),
            n == old(self).nodes()[i as int],
            node_wf(n, old(self).nodes().len()),
            forall|j: int| 0 <= j < old(self).nodes().len() && j != i ==> final(self).nodes()[j] == old(self).nodes()[j],
    {
        let n = self.swap_node(i, empty_node());
        proof {
            assert(node_wf(old(self).nodes()[i as int], old(self).nodes().len()));
            assert forall|j: int| 0 <= j < self.nodes().len() implies node_wf(#[trigger] self.nodes()[j], self.nodes().len()) by {
                if j != i {
                    assert(self.nodes()[j] == old(self).nodes()[j]);
                }
            }
        }
        n
    }

    /// Puts a well-formed node back into slot `i`.
    fn put_node(&mut self, i: usize, n: Node)
        requires
            old(self).wf(),
            i < old(self).nodes().len(),
            node_wf(n, old(self).nodes().len()),
        ensures
            final(self).wf(),
            final(self).res() == old(self).res(),
            final(self).camera() == old(self).camera(),
            final(self).nodes() == old(self).nodes().update(i as int, n),
    {
        let _ = self.swap_node(i, n);
        proof {
            assert forall|j: int| 0 <= j < self.nodes().len() implies node_wf(#[trigger] self.nodes()[j], self.nodes().len()) by {
                if j != i {
                    assert(self.nodes()[j] == old(self).nodes()[j]);
                }
            }
        }
    }
}

/// Two nodes agree on everything but their sequences.
pub open spec fn same_but_sequences(a: Node, b: Node) -> bool {
    &&& a.alive == b.alive
    &&& a.visible == b.visible
    &&& a.parent == b.parent
    &&& a.order == b.order
    &&& a.width == b.width
    &&& a.height == b.height
    &&& a.sprite_flags == b.sprite_flags
    &&& a.blend == b.blend
    &&& a.stop_anims_on_hide == b.stop_anims_on_hide
    &&& a.anims@ == b.anims@
    &&& a.values@ == b.values@
    &&& a.image == b.image
    &&& a.player == b.player
}

/// Two nodes agree on everything but their playback and shown image.
pub open spec fn same_but_player_image(a: Node, b: Node) -> bool {
    &&& same_but_anims_player_image(a, b)
    &&& a.anims@ == b.anims@
    &&& a.values@ == b.values@
}

impl Sprite {
    /// Adds an empty sequence to the sprite and returns its id, which is
    /// local to the sprite.
    pub fn new_sequence(&self, scene: &mut Scene) -> (r: Result<usize, SceneError>)
        requires
            old(scene).wf(),
        ensures
            final(scene).wf(),
            final(scene).res() == old(scene).res(),
            final(scene).camera() == old(scene).camera(),
            final(scene).nodes().len() == old(scene).nodes().len(),
            r.is_ok() == old(scene).valid(*self),
            r.is_err() ==> r == Err::<usize, SceneError>(SceneError::InvalidSprite) && final(scene).nodes() == old(scene).nodes(),
            r.is_ok() ==> {
                let o = old(scene).nodes()[self.slot as int];
                let n = final(scene).nodes()[self.slot as int];
                &&& r.unwrap() == o.sequences@.len()
                &&& n.sequences@.len() == o.sequences@.len() + 1
                &&& n.sequences@.last()@.len() == 0
                &&& n.held@ == o.held@
                &&& forall|k: int| 0 <= k < o.sequences@.len() ==> n.sequences@[k]@ == o.sequences@[k]@
                &&& same_but_sequences(o, n)
                &&& forall|j: int| 0 <= j < final(scene).nodes().len() && j != self.slot ==> final(scene).nodes()[j] == old(scene).nodes()[j]
            },
    {
        if self.slot >= scene.nodes.len() || !scene.nodes[self.slot].alive {
            return Err(SceneError::InvalidSprite);
        }
        let mut n = scene.take_node(self.slot);
        let id = n.sequences.len();
        n.sequences.push(Vec::new());
        proof {
            let o = old(scene).nodes()[self.slot as int];
            match o.player {
                Some(p) => assert(n.sequences@[p.seq as int] == o.sequences@[p.seq as int]),
                None => {},
            }
        }
        scene.put_node(self.slot, n);
        Ok(id)
    }

    /// Appends a frame showing `image` for `duration` milliseconds to a
    /// sequence. Fails on an invalid sprite or sequence, or when the image
    /// cannot be loaded; then no frame is added.
    pub fn sequence_add_frame(
        &self,
        scene: &mut Scene,
        sequence: usize,
        image: Ident,
        duration: u32,
        image_flags: u32,
    ) -> (r: Result<(), SceneError>)
        requires
            old(scene).wf(),
        ensures
            final(scene).wf(),
            final(scene).nodes().len() == old(scene).nodes().len(),
            !old(scene).valid(*self) ==> r == Err::<(), SceneError>(SceneError::InvalidSprite),
            old(scene).valid(*self) && sequence >= old(scene).nodes()[self.slot as int].sequences@.len()
                ==> r == Err::<(), SceneError>(SceneError::InvalidSequenceFrame),
            old(scene).valid(*self) && sequence < old(scene).nodes()[self.slot as int].sequences@.len()
                ==> (r.is_ok() == load_result(old(scene).res(), image, image_flags).is_ok())
                    && load_effect(old(scene).res(), final(scene).res(), image, image_flags),
            !(old(scene).valid(*self) && sequence < old(scene).nodes()[self.slot as int].sequences@.len())
                ==> final(scene).res() == old(scene).res(),
            final(scene).camera() == old(scene).camera(),
            r.is_err() ==> final(scene).nodes() == old(scene).nodes(),
            r.is_ok() ==> {
                let o = old(scene).nodes()[self.slot as int];
                let n = final(scene).nodes()[self.slot as int];
                &&& n.sequences@.len() == o.sequences@.len()
                &&& n.sequences@[sequence as int]@ == o.sequences@[sequence as int]@.push(Frame { image, duration, flags: image_flags })
                &&& forall|k: int| 0 <= k < o.sequences@.len() && k != sequence ==> n.sequences@[k]@ == o.sequences@[k]@
                &&& same_but_sequences(o, n)
                &&& n.held@ == o.held@.push(load_result(old(scene).res(), image, image_flags).unwrap())
                &&& forall|j: int| 0 <= j < final(scene).nodes().len() && j != self.slot ==> final(scene).nodes()[j] == old(scene).nodes()[j]
            },
    {
        if self.slot >= scene.nodes.len() || !scene.nodes[self.slot].alive {
            return Err(SceneError::InvalidSprite);
        }
        if sequence >= scene.nodes[self.slot].sequences.len() {
            return Err(SceneError::InvalidSequenceFrame);
        }
        let ghost before = scene.nodes();
        let h = match scene.resources.load_image(image, image_flags) {
            Ok(h) => h,
            Err(e) => {
                proof {
                    assert(scene.nodes() == before);
                }
                return Err(SceneError::Resource(e));
            },
        };
        assert(scene.wf()) by {
            assert(scene.nodes() == before);
        }
        let mut n = scene.take_node(self.slot);
        let ghost o = n;
        let mut frames = n.sequences.remove(sequence);
        frames.push(Frame { image, duration, flags: image_flags });
        n.sequences.insert(sequence, frames);
        n.held.push(h);
        proof {
            assert(n.sequences@ =~= o.sequences@.update(sequence as int, frames));
            match o.player {
                Some(p) => {
                    if p.seq == sequence {
                        assert(n.sequences@[p.seq as int]@.len() == o.sequences@[p.seq as int]@.len() + 1);
                    } else {
                        assert(n.sequences@[p.seq as int] == o.sequences@[p.seq as int]);
                    }
                },
                None => {},
            }
        }
        scene.put_node(self.slot, n);
        Ok(())
    }
}

impl Sprite {
    /// Plays a sequence from `start_frame` at `speed_multiplier` percent of
    /// its frames' durations, superseding any earlier playback. With
    /// `ANIM_REPEAT` it loops back to the first frame.
    pub fn sequence_play(
        &self,
        scene: &mut Scene,
        sequence: usize,
        start_frame: usize,
        speed_multiplier: u32,
        anim_flags: u32,
    ) -> (r: Result<(), SceneError>)
        requires
            old(scene).wf(),
        ensures
            final(scene).wf(),
            final(scene).res() == old(scene).res(),
            final(scene).camera() == old(scene).camera(),
            final(scene).nodes().len() == old(scene).nodes().len(),
            !old(scene).valid(*self) ==> r == Err::<(), SceneError>(SceneError::InvalidSprite),
            old(scene).valid(*self) && (sequence >= old(scene).nodes()[self.slot as int].sequences@.len()
                || start_frame >= old(scene).nodes()[self.slot as int].sequences@[sequence as int]@.len())
                ==> r == Err::<(), SceneError>(SceneError::InvalidSequenceFrame),
            old(scene).valid(*self) && sequence < old(scene).nodes()[self.slot as int].sequences@.len()
                && start_frame < old(scene).nodes()[self.slot as int].sequences@[sequence as int]@.len()
                ==> (r.is_ok() == (speed_multiplier > 0)),
            r.is_err() ==> final(scene).nodes() == old(scene).nodes(),
            r.is_ok() ==> {
                let o = old(scene).nodes()[self.slot as int];
                let n = final(scene).nodes()[self.slot as int];
                &&& n.player == Some(Player {
                    seq: sequence,
                    frame: start_frame,
                    elapsed: 0,
                    speed: speed_multiplier,
                    flags: anim_flags,
                    playing: true,
                })
                &&& n.image == Some(o.sequences@[sequence as int]@[start_frame as int].image)
                &&& same_but_player_image(o, n)
                &&& forall|j: int| 0 <= j < final(scene).nodes().len() && j != self.slot ==> final(scene).nodes()[j] == old(scene).nodes()[j]
            },
    {
        if self.slot >= scene.nodes.len() || !scene.nodes[self.slot].alive {
            return Err(SceneError::InvalidSprite);
        }
        if sequence >= scene.nodes[self.slot].sequences.len()
            || start_frame >= scene.nodes[self.slot].sequences[sequence].len() {
            return Err(SceneError::InvalidSequenceFrame);
        }
        if speed_multiplier == 0 {
            return Err(SceneError::InvalidSpeed);
        }
        let mut n = scene.take_node(self.slot);
        n.image = Some(n.sequences[sequence][start_frame].image);
        n.player = Some(Player {
            seq: sequence,
            frame: start_frame,
            elapsed: 0,
            speed: speed_multiplier,
            flags: anim_flags,
            playing: true,
        });
        scene.put_node(self.slot, n);
        Ok(())
    }

    /// Halts playback, leaving the current frame's image shown.
    pub fn sequence_stop(&self, scene: &mut Scene) -> (r: Result<(), SceneError>)
        requires
            old(scene).wf(),
        ensures
            final(scene).wf(),
            final(scene).res() == old(scene).res(),
            final(scene).camera() == old(scene).camera(),
            final(scene).nodes().len() == old(scene).nodes().len(),
            r.is_ok() == old(scene).valid(*self),
            r.is_err() ==> r == Err::<(), SceneError>(SceneError::InvalidSprite) && final(scene).nodes() == old(scene).nodes(),
            r.is_ok() ==> {
                let o = old(scene).nodes()[self.slot as int];
                let n = final(scene).nodes()[self.slot as int];
                &&& n.player == (match o.player {
                    Some(p) => Some(Player { playing: false, ..p }),
                    None => None,
                })
                &&& n.image == o.image
                &&& same_but_player_image(o, n)
                &&& forall|j: int| 0 <= j < final(scene).nodes().len() && j != self.slot ==> final(scene).nodes()[j] == old(scene).nodes()[j]
            },
    {
        if self.slot >= scene.nodes.len() || !scene.nodes[self.slot].alive {
            return Err(SceneError::InvalidSprite);
        }
        let mut n = scene.take_node(self.slot);
        n.player = match n.player {
            Some(p) => Some(Player { playing: false, ..p }),
            None => None,
        };
        scene.put_node(self.slot, n);
        Ok(())
    }
}

/// Two nodes agree on everything but the sprite's settings: size, flags,
/// order, blend mode, visibility and its hide policy.
pub open spec fn same_but_settings(a: Node, b: Node) -> bool {
    &&& a.alive == b.alive
    &&& a.parent == b.parent
    &&& a.image == b.image
    &&& a.values@ == b.values@
    &&& a.sequences@ == b.sequences@
    &&& a.player == b.player
    &&& a.held@ == b.held@
}

impl Sprite {
    /// Sets the sprite's size and anchor flags.
    pub fn set_size(&self, scene: &mut Scene, w: u32, h: u32, sprite_flags: u32) -> (r: Result<(), SceneError>)
        requires
            old(scene).wf(),
        ensures
            final(scene).wf(),
            final(scene).res() == old(scene).res(),
            final(scene).camera() == old(scene).camera(),
            final(scene).nodes().len() == old(scene).nodes().len(),
            r.is_ok() == old(scene).valid(*self),
            r.is_err() ==> r == Err::<(), SceneError>(SceneError::InvalidSprite) && final(scene).nodes() == old(scene).nodes(),
            r.is_ok() ==> {
                let o = old(scene).nodes()[self.slot as int];
                let n = final(scene).nodes()[self.slot as int];
                &&& n.width == w && n.height == h && n.sprite_flags == sprite_flags
                &&& same_but_settings(o, n) && n.anims@ == o.anims@ && n.order == o.order && n.visible == o.visible
                &&& n.blend == o.blend && n.stop_anims_on_hide == o.stop_anims_on_hide
                &&& forall|j: int| 0 <= j < final(scene).nodes().len() && j != self.slot ==> final(scene).nodes()[j] == old(scene).nodes()[j]
            },
    {
        if self.slot >= scene.nodes.len() || !scene.nodes[self.slot].alive {
            return Err(SceneError::InvalidSprite);
        }
        let mut n = scene.take_node(self.slot);
        n.width = w;
        n.height = h;
        n.sprite_flags = sprite_flags;
        scene.put_node(self.slot, n);
        Ok(())
    }

    /// Sets the sprite's z-order; among equal orders later sprites are on top.
    pub fn set_order(&self, scene: &mut Scene, order: i32) -> (r: Result<(), SceneError>)
        requires
            old(scene).wf(),
        ensures
            final(scene).wf(),
            final(scene).res() == old(scene).res(),
            final(scene).camera() == old(scene).camera(),
            final(scene).nodes().len() == old(scene).nodes().len(),
            r.is_ok() == old(scene).valid(*self),
            r.is_err() ==> r == Err::<(), SceneError>(SceneError::InvalidSprite) && final(scene).nodes() == old(scene).nodes(),
            r.is_ok() ==> {
                let o = old(scene).nodes()[self.slot as int];
                let n = final(scene).nodes()[self.slot as int];
                &&& n.order == order
                &&& same_but_settings(o, n) && n.anims@ == o.anims@ && n.width == o.width && n.height == o.height
                &&& n.sprite_flags == o.sprite_flags && n.visible == o.visible
                &&& n.blend == o.blend && n.stop_anims_on_hide == o.stop_anims_on_hide
                &&& forall|j: int| 0 <= j < final(scene).nodes().len() && j != self.slot ==> final(scene).nodes()[j] == old(scene).nodes()[j]
            },
    {
        if self.slot >= scene.nodes.len() || !scene.nodes[self.slot].alive {
            return Err(SceneError::InvalidSprite);
        }
        let mut n = scene.take_node(self.slot);
        n.order = order;
        scene.put_node(self.slot, n);
        Ok(())
    }

    /// Sets how the sprite's pixels are blended.
    pub fn blend(&self, scene: &mut Scene, mode: l2d_blend) -> (r: Result<(), SceneError>)
        requires
            old(scene).wf(),
        ensures
            final(scene).wf(),
            final(scene).res() == old(scene).res(),
            final(scene).camera() == old(scene).camera(),
            final(scene).nodes().len() == old(scene).nodes().len(),
            r.is_ok() == old(scene).valid(*self),
            r.is_err() ==> r == Err::<(), SceneError>(SceneError::InvalidSprite) && final(scene).nodes() == old(scene).nodes(),
            r.is_ok() ==> {
                let o = old(scene).nodes()[self.slot as int];
                let n = final(scene).nodes()[self.slot as int];
                &&& n.blend == mode
                &&& same_but_settings(o, n) && n.anims@ == o.anims@ && n.width == o.width && n.height == o.height
                &&& n.sprite_flags == o.sprite_flags && n.visible == o.visible && n.order == o.order
                &&& n.stop_anims_on_hide == o.stop_anims_on_hide
                &&& forall|j: int| 0 <= j < final(scene).nodes().len() && j != self.slot ==> final(scene).nodes()[j] == old(scene).nodes()[j]
            },
    {
        if self.slot >= scene.nodes.len() || !scene.nodes[self.slot].alive {
            return Err(SceneError::InvalidSprite);
        }
        let mut n = scene.take_node(self.slot);
        n.blend = mode;
        scene.put_node(self.slot, n);
        Ok(())
    }

    /// Sets whether hiding the sprite clears its animation entries.
    pub fn set_stop_anims_on_hide(&self, scene: &mut Scene, v: bool) -> (r: Result<(), SceneError>)
        requires
            old(scene).wf(),
        ensures
            final(scene).wf(),
            final(scene).res() == old(scene).res(),
            final(scene).camera() == old(scene).camera(),
            final(scene).nodes().len() == old(scene).nodes().len(),
            r.is_ok() == old(scene).valid(*self),
            r.is_err() ==> r == Err::<(), SceneError>(SceneError::InvalidSprite) && final(scene).nodes() == old(scene).nodes(),
            r.is_ok() ==> {
                let o = old(scene).nodes()[self.slot as int];
                let n = final(scene).nodes()[self.slot as int];
                &&& n.stop_anims_on_hide == v
                &&& same_but_settings(o, n) && n.anims@ == o.anims@ && n.width == o.width && n.height == o.height
                &&& n.sprite_flags == o.sprite_flags && n.visible == o.visible && n.order == o.order
                &&& n.blend == o.blend
                &&& forall|j: int| 0 <= j < final(scene).nodes().len() && j != self.slot ==> final(scene).nodes()[j] == old(scene).nodes()[j]
            },
    {
        if self.slot >= scene.nodes.len() || !scene.nodes[self.slot].alive {
            return Err(SceneError::InvalidSprite);
        }
        let mut n = scene.take_node(self.slot);
        n.stop_anims_on_hide = v;
        scene.put_node(self.slot, n);
        Ok(())
    }

    /// Shows or hides the sprite. Hiding a sprite that stops its animations
    /// on hide clears its animation entries.
    pub fn set_visible(&self, scene: &mut Scene, visible: bool) -> (r: Result<(), SceneError>)
        requires
            old(scene).wf(),
        ensures
            final(scene).wf(),
            final(scene).res() == old(scene).res(),
            final(scene).camera() == old(scene).camera(),
            final(scene).nodes().len() == old(scene).nodes().len(),
            r.is_ok() == old(scene).valid(*self),
            r.is_err() ==> r == Err::<(), SceneError>(SceneError::InvalidSprite) && final(scene).nodes() == old(scene).nodes(),
            r.is_ok() ==> {
                let o = old(scene).nodes()[self.slot as int];
                let n = final(scene).nodes()[self.slot as int];
                &&& n.visible == visible
                &&& n.anims@ == (if !visible && o.stop_anims_on_hide { Seq::empty() } else { o.anims@ })
                &&& same_but_settings(o, n) && n.width == o.width && n.height == o.height
                &&& n.sprite_flags == o.sprite_flags && n.order == o.order
                &&& n.blend == o.blend && n.stop_anims_on_hide == o.stop_anims_on_hide
                &&& forall|j: int| 0 <= j < final(scene).nodes().len() && j != self.slot ==> final(scene).nodes()[j] == old(scene).nodes()[j]
            },
    {
        if self.slot >= scene.nodes.len() || !scene.nodes[self.slot].alive {
            return Err(SceneError::InvalidSprite);
        }
        let mut n = scene.take_node(self.slot);
        n.visible = visible;
        if !visible && n.stop_anims_on_hide {
            n.anims = Vec::new();
        }
        scene.put_node(self.slot, n);
        Ok(())
    }

    /// Clears every animation entry of the sprite; values stay where they are.
    pub fn abort_anim(&self, scene: &mut Scene) -> (r: Result<(), SceneError>)
        requires
            old(scene).wf(),
        ensures
            final(scene).wf(),
            final(scene).res() == old(scene).res(),
            final(scene).camera() == old(scene).camera(),
            final(scene).nodes().len() == old(scene).nodes().len(),
            r.is_ok() == old(scene).valid(*self),
            r.is_err() ==> r == Err::<(), SceneError>(SceneError::InvalidSprite) && final(scene).nodes() == old(scene).nodes(),
            r.is_ok() ==> {
                let o = old(scene).nodes()[self.slot as int];
                let n = final(scene).nodes()[self.slot as int];
                &&& n.anims@.len() == 0
                &&& same_but_anims(o, n) && n.values@ == o.values@
                &&& forall|j: int| 0 <= j < final(scene).nodes().len() && j != self.slot ==> final(scene).nodes()[j] == old(scene).nodes()[j]
            },
    {
        if self.slot >= scene.nodes.len() || !scene.nodes[self.slot].alive {
            return Err(SceneError::InvalidSprite);
        }
        let mut n = scene.take_node(self.slot);
        n.anims = Vec::new();
        scene.put_node(self.slot, n);
        Ok(())
    }
}

/// Position of node `i` along `axis` (`PROP_X` or `PROP_Y`) with its
/// ancestors' positions added, following at most `fuel` parent links.
pub open spec fn world(nodes: Seq<Node>, i: int, axis: usize, fuel: nat) -> int
    decreases fuel,
{
    let own = nodes[i].values@[axis as int] as int;
    if fuel == 0 {
        own
    } else {
        match nodes[i].parent {
            Some(p) => if p < nodes.len() {
                own + world(nodes, p as int, axis, (fuel - 1) as nat)
            } else {
                own
            },
            None => own,
        }
    }
}

/// Offset of the sprite's origin from its low edge along one axis.
pub open spec fn anchor_offset(flags: u32, low: u32, high: u32, size: int) -> int {
    if flags & low != 0 {
        0
    } else if flags & high != 0 {
        size
    } else {
        size / 2
    }
}

pub open spec fn clamp_scale(v: i32) -> int {
    if v < 0 {
        0
    } else if v > 1_000_000 {
        1_000_000
    } else {
        v as int
    }
}

/// Scale of node `i` multiplied down from its ancestors (1000 is one),
/// capped at 1000 times, following at most `fuel` parent links.
pub open spec fn world_scale(nodes: Seq<Node>, i: int, fuel: nat) -> int
    decreases fuel,
{
    let own = clamp_scale(nodes[i].values@[PROP_SCALE as int]);
    let s = if fuel == 0 {
        own
    } else {
        match nodes[i].parent {
            Some(p) => if p < nodes.len() {
                own * world_scale(nodes, p as int, (fuel - 1) as nat) / 1000
            } else {
                own
            },
            None => own,
        }
    };
    if s > 1_000_000 {
        1_000_000
    } else {
        s
    }
}

/// `v` scaled by `s` (1000 is one), rounded toward zero.
pub open spec fn scaled(v: int, s: int) -> int {
    if v >= 0 {
        v * s / 1000
    } else {
        -((-v) * s / 1000)
    }
}

/// Position of node `i` along `axis` in the scene: its offset, scaled by its
/// parent's composed scale, added to its parent's position; following at
/// most `fuel` parent links.
pub open spec fn world_pos(nodes: Seq<Node>, i: int, axis: usize, fuel: nat) -> int
    decreases fuel,
{
    let own = nodes[i].values@[axis as int] as int;
    if fuel == 0 {
        own
    } else {
        match nodes[i].parent {
            Some(p) => if p < nodes.len() {
                world_pos(nodes, p as int, axis, (fuel - 1) as nat) + scaled(own, world_scale(nodes, p as int, (fuel - 1) as nat))
            } else {
                own
            },
            None => own,
        }
    }
}

/// Whether the point lies in the node's axis-aligned bounds, its size
/// scaled by its composed scale.
pub open spec fn contains(nodes: Seq<Node>, i: int, x: int, y: int) -> bool {
    let n = nodes[i];
    let s = world_scale(nodes, i, nodes.len());
    let w = scaled(n.width as int, s);
    let h = scaled(n.height as int, s);
    let left = world_pos(nodes, i, PROP_X, nodes.len()) - anchor_offset(n.sprite_flags, SPRITE_ANCHOR_LEFT, SPRITE_ANCHOR_RIGHT, w);
    let top = world_pos(nodes, i, PROP_Y, nodes.len()) - anchor_offset(n.sprite_flags, SPRITE_ANCHOR_TOP, SPRITE_ANCHOR_BOTTOM, h);
    left <= x < left + w && top <= y < top + h
}

/// Whether a click at the point can land on node `i`.
pub open spec fn hit(nodes: Seq<Node>, i: int, x: int, y: int) -> bool {
    nodes[i].alive && nodes[i].visible && contains(nodes, i, x, y)
}

/// Whether node `i` is drawn over node `j`, or is `j`.
pub open spec fn on_top(nodes: Seq<Node>, i: int, j: int) -> bool {
    nodes[j].order < nodes[i].order || (nodes[j].order == nodes[i].order && j <= i)
}

proof fn lemma_world_bound(nodes: Seq<Node>, i: int, axis: usize, fuel: nat)
    requires
        0 <= i < nodes.len(),
        axis < NPROPS,
        forall|k: int| 0 <= k < nodes.len() ==> (#[trigger] nodes[k]).values@.len() == NPROPS,
    ensures
        -(fuel + 1) * 0x8000_0000 <= world(nodes, i, axis, fuel) <= (fuel + 1) * 0x8000_0000,
    decreases fuel,
{
    assert(nodes[i].values@.len() == NPROPS);
    if fuel > 0 {
        match nodes[i].parent {
            Some(p) => if p < nodes.len() {
                lemma_world_bound(nodes, p as int, axis, (fuel - 1) as nat);
            },
            None => {},
        }
    }
}

impl Scene {
    fn world_exec(&self, i: usize, axis: usize) -> (r: i128)
        requires
            self.wf(),
            i < self.nodes().len(),
            axis < NPROPS,
        ensures
            r == world(self.nodes(), i as int, axis, self.nodes().len()),
    {
        let ghost nodes = self.nodes();
        let fuel = self.nodes.len();
        let mut acc: i128 = 0;
        let mut cur: usize = i;
        let mut k: usize = fuel;
        loop
            invariant
                self.wf(),
                nodes == self.nodes(),
                fuel == nodes.len(),
                axis < NPROPS,
                cur < nodes.len(),
                k <= fuel,
                -(fuel - k) * 0x8000_0000 <= acc <= (fuel - k) * 0x8000_0000,
                acc + world(nodes, cur as int, axis, k as nat) == world(nodes, i as int, axis, fuel as nat),
            decreases k,
        {
            assert(node_wf(nodes[cur as int], nodes.len()));
            let v = self.nodes[cur].values[axis];
            if k == 0 {
                return acc + v as i128;
            }
            match self.nodes[cur].parent {
                Some(p) => {
                    acc = acc + v as i128;
                    cur = p;
                    k = k - 1;
                },
                None => {
                    return acc + v as i128;
                },
            }
        }
    }

    fn anchor_offset_exec(flags: u32, low: u32, high: u32, size: i128) -> (r: i128)
        requires
            0 <= size,
        ensures
            r == anchor_offset(flags, low, high, size as int),
    {
        if flags & low != 0 {
            0
        } else if flags & high != 0 {
            size
        } else {
            size / 2
        }
    }

    fn world_scale_exec(&self, i: usize, fuel: usize) -> (r: i64)
        requires
            self.wf(),
            i < self.nodes().len(),
        ensures
            r == world_scale(self.nodes(), i as int, fuel as nat),
            0 <= r <= 1_000_000,
        decreases fuel,
    {
        assert(node_wf(self.nodes()[i as int], self.nodes().len()));
        let a = self.nodes[i].values[PROP_SCALE];
        let own: i64 = if a < 0 {
            0
        } else if a > 1_000_000 {
            1_000_000
        } else {
            a as i64
        };
        let s: i64 = if fuel == 0 {
            own
        } else {
            match self.nodes[i].parent {
                Some(p) => {
                    let up = self.world_scale_exec(p, fuel - 1);
                    assert(0 <= own * up <= 1_000_000 * 1_000_000) by (nonlinear_arith)
                        requires 0 <= own <= 1_000_000, 0 <= up <= 1_000_000;
                    own * up / 1000
                },
                None => own,
            }
        };
        if s > 1_000_000 {
            1_000_000
        } else {
            s
        }
    }

    fn scaled_exec(v: i128, sc: i64) -> (r: i128)
        requires
            -0x1_0000_0000 <= v <= 0x1_0000_0000,
            0 <= sc <= 1_000_000,
        ensures
            r == scaled(v as int, sc as int),
            -0x1_0000_0000 * 1000 <= r <= 0x1_0000_0000 * 1000,
    {
        if v >= 0 {
            assert(0 <= v * sc <= 0x1_0000_0000 * 1_000_000) by (nonlinear_arith)
                requires 0 <= v <= 0x1_0000_0000, 0 <= sc <= 1_000_000;
            v * sc as i128 / 1000
        } else {
            assert(0 <= (-v) * sc <= 0x1_0000_0000 * 1_000_000) by (nonlinear_arith)
                requires 0 < -v <= 0x1_0000_0000, 0 <= sc <= 1_000_000;
            -((-v) * sc as i128 / 1000)
        }
    }

    fn world_pos_exec(&self, i: usize, axis: usize, fuel: usize) -> (r: i128)
        requires
            self.wf(),
            i < self.nodes().len(),
            axis < NPROPS,
        ensures
            r == world_pos(self.nodes(), i as int, axis, fuel as nat),
            -(fuel + 1) * 0x1_0000_0000 * 1000 <= r <= (fuel + 1) * 0x1_0000_0000 * 1000,
        decreases fuel,
    {
        assert(node_wf(self.nodes()[i as int], self.nodes().len()));
        let own = self.nodes[i].values[axis] as i128;
        if fuel == 0 {
            return own;
        }
        match self.nodes[i].parent {
            Some(p) => {
                let up = self.world_pos_exec(p, axis, fuel - 1);
                let sc = self.world_scale_exec(p, fuel - 1);
                let off = Scene::scaled_exec(own, sc);
                up + off
            },
            None => own,
        }
    }

    fn contains_exec(&self, i: usize, x: i64, y: i64) -> (r: bool)
        requires
            self.wf(),
            i < self.nodes().len(),
        ensures
            r == contains(self.nodes(), i as int, x as int, y as int),
    {
        proof {
            assert forall|k: int| 0 <= k < self.nodes().len() implies (#[trigger] self.nodes()[k]).values@.len() == NPROPS by {
                assert(node_wf(self.nodes()[k], self.nodes().len()));
            }
            lemma_world_bound(self.nodes(), i as int, PROP_X, self.nodes().len());
            lemma_world_bound(self.nodes(), i as int, PROP_Y, self.nodes().len());
        }
        let cnt = self.nodes.len();
        assert((cnt + 1) * 0x1_0000_0000 * 1000 <= 0x1_0000_0000_0000_0000 * 0x1_0000_0000 * 1000) by (nonlinear_arith)
            requires cnt <= 0xffff_ffff_ffff_ffff;
        let n = &self.nodes[i];
        let sc = self.world_scale_exec(i, cnt);
        let w = Scene::scaled_exec(n.width as i128, sc);
        let h = Scene::scaled_exec(n.height as i128, sc);
        assert(0 <= w && 0 <= h) by (nonlinear_arith)
            requires w == scaled(n.width as int, sc as int), h == scaled(n.height as int, sc as int), 0 <= sc;
        let left = self.world_pos_exec(i, PROP_X, cnt)
            - Scene::anchor_offset_exec(n.sprite_flags, SPRITE_ANCHOR_LEFT, SPRITE_ANCHOR_RIGHT, w);
        let top = self.world_pos_exec(i, PROP_Y, cnt)
            - Scene::anchor_offset_exec(n.sprite_flags, SPRITE_ANCHOR_TOP, SPRITE_ANCHOR_BOTTOM, h);
        left <= x as i128 && (x as i128) < left + w && top <= y as i128 && (y as i128) < top + h
    }

    /// Resolves a click at (`x`, `y`) to the topmost visible live sprite
    /// whose bounds hold the point: highest order first, then the latest
    /// created. `None` when no sprite takes the click. Children are not
    /// clipped to their parent's bounds.
    pub fn feed_click(&self, x: i64, y: i64, _button: i32) -> (r: Option<Sprite>)
        requires
            self.wf(),
        ensures
            r.is_none() == (forall|j: int| 0 <= j < self.nodes().len() ==> !hit(self.nodes(), j, x as int, y as int)),
            r matches Some(s) ==> s.slot < self.nodes().len() && hit(self.nodes(), s.slot as int, x as int, y as int)
                && forall|j: int| 0 <= j < self.nodes().len() && hit(self.nodes(), j, x as int, y as int)
                    ==> on_top(self.nodes(), s.slot as int, j),
    {
        let mut best: Option<usize> = None;
        let mut i: usize = 0;
        while i < self.nodes.len()
            invariant
                self.wf(),
                i <= self.nodes().len(),
                best.is_none() == (forall|j: int| 0 <= j < i ==> !hit(self.nodes(), j, x as int, y as int)),
                best matches Some(b) ==> b < i && hit(self.nodes(), b as int, x as int, y as int)
                    && forall|j: int| 0 <= j < i && hit(self.nodes(), j, x as int, y as int)
                        ==> on_top(self.nodes(), b as int, j),
            decreases self.nodes().len() - i,
        {
            let h = self.nodes[i].alive && self.nodes[i].visible && self.contains_exec(i, x, y);
            assert(h == hit(self.nodes(), i as int, x as int, y as int));
            let ghost prev = best;
            if h {
                let better = match best {
                    None => true,
                    Some(b) => self.nodes[i].order >= self.nodes[b].order,
                };
                if better {
                    best = Some(i);
                }
            }
            proof {
                if !h {
                    assert forall|j: int| 0 <= j < i + 1 && hit(self.nodes(), j, x as int, y as int)
                        implies j < i by {}
                }
                match best {
                    Some(b) => {
                        assert forall|j: int| 0 <= j < i + 1 && hit(self.nodes(), j, x as int, y as int)
                            implies on_top(self.nodes(), b as int, j) by {
                            if j < i {
                                if b == i {
                                    let pb = prev.unwrap();
                                    assert(on_top(self.nodes(), pb as int, j));
                                }
                            }
                        }
                    },
                    None => {},
                }
            }
            i = i + 1;
        }
        match best {
            Some(b) => Some(Sprite { slot: b }),
            None => None,
        }
    }
}

impl Sprite {
    /// Whether the point lies in this sprite's bounds.
    pub fn feed_click(&self, scene: &Scene, x: i64, y: i64, _button: i32) -> (r: Result<bool, SceneError>)
        requires
            scene.wf(),
        ensures
            r.is_ok() == scene.valid(*self),
            r.is_err() ==> r == Err::<bool, SceneError>(SceneError::InvalidSprite),
            r matches Ok(b) ==> b == contains(scene.nodes(), self.slot as int, x as int, y as int),
    {
        if self.slot >= scene.nodes.len() || !scene.nodes[self.slot].alive {
            return Err(SceneError::InvalidSprite);
        }
        Ok(scene.contains_exec(self.slot, x, y))
    }
}

/// Whether following at most `fuel` parent links from `from` reaches `target`.
pub open spec fn reaches(nodes: Seq<Node>, from: int, target: int, fuel: nat) -> bool
    decreases fuel,
{
    if from == target {
        true
    } else if fuel == 0 {
        false
    } else {
        match nodes[from].parent {
            Some(q) => q < nodes.len() && reaches(nodes, q as int, target, (fuel - 1) as nat),
            None => false,
        }
    }
}

/// Two nodes agree on everything but their parent.
pub open spec fn same_but_parent(a: Node, b: Node) -> bool {
    &&& a.alive == b.alive
    &&& a.visible == b.visible
    &&& a.order == b.order
    &&& a.image == b.image
    &&& a.width == b.width
    &&& a.height == b.height
    &&& a.sprite_flags == b.sprite_flags
    &&& a.blend == b.blend
    &&& a.stop_anims_on_hide == b.stop_anims_on_hide
    &&& a.anims@ == b.anims@
    &&& a.values@ == b.values@
    &&& a.sequences@ == b.sequences@
    &&& a.player == b.player
    &&& a.held@ == b.held@
}

impl Scene {
    fn reaches_exec(&self, from: usize, target: usize) -> (r: bool)
        requires
            self.wf(),
            from < self.nodes().len(),
        ensures
            r == reaches(self.nodes(), from as int, target as int, self.nodes().len()),
    {
        let ghost nodes = self.nodes();
        let mut cur: usize = from;
        let mut k: usize = self.nodes.len();
        loop
            invariant
                self.wf(),
                nodes == self.nodes(),
                cur < nodes.len(),
                reaches(nodes, cur as int, target as int, k as nat)
                    == reaches(nodes, from as int, target as int, nodes.len()),
            decreases k,
        {
            if cur == target {
                return true;
            }
            if k == 0 {
                return false;
            }
            assert(node_wf(nodes[cur as int], nodes.len()));
            match self.nodes[cur].parent {
                Some(q) => {
                    cur = q;
                    k = k - 1;
                },
                None => {
                    return false;
                },
            }
        }
    }
}

impl Sprite {
    /// Places the sprite under `parent`, or at the scene's root for `None`.
    /// A parent that is the sprite itself or one of its descendants is
    /// refused with `InvalidParent`, and nothing changes.
    pub fn set_parent(&self, scene: &mut Scene, parent: Option<Sprite>) -> (r: Result<(), SceneError>)
        requires
            old(scene).wf(),
        ensures
            final(scene).wf(),
            final(scene).res() == old(scene).res(),
            final(scene).camera() == old(scene).camera(),
            final(scene).nodes().len() == old(scene).nodes().len(),
            !old(scene).valid(*self) || (parent.is_some() && !old(scene).valid(parent.unwrap()))
                ==> r == Err::<(), SceneError>(SceneError::InvalidSprite),
            old(scene).valid(*self) && parent.is_none() ==> r.is_ok(),
            old(scene).valid(*self) && parent.is_some() && old(scene).valid(parent.unwrap())
                ==> (r.is_ok() <==> !reaches(old(scene).nodes(), parent.unwrap().slot as int, self.slot as int,
                    old(scene).nodes().len())),
            r.is_err() ==> r == Err::<(), SceneError>(SceneError::InvalidSprite)
                || r == Err::<(), SceneError>(SceneError::InvalidParent),
            r.is_err() ==> final(scene).nodes() == old(scene).nodes(),
            r.is_ok() ==> {
                let o = old(scene).nodes()[self.slot as int];
                let n = final(scene).nodes()[self.slot as int];
                &&& n.parent == (match parent {
                    Some(p) => Some(p.slot),
                    None => None,
                })
                &&& same_but_parent(o, n)
                &&& forall|j: int| 0 <= j < final(scene).nodes().len() && j != self.slot ==> final(scene).nodes()[j] == old(scene).nodes()[j]
            },
    {
        if self.slot >= scene.nodes.len() || !scene.nodes[self.slot].alive {
            return Err(SceneError::InvalidSprite);
        }
        let link = match parent {
            Some(p) => {
                if p.slot >= scene.nodes.len() || !scene.nodes[p.slot].alive {
                    return Err(SceneError::InvalidSprite);
                }
                if scene.reaches_exec(p.slot, self.slot) {
                    return Err(SceneError::InvalidParent);
                }
                Some(p.slot)
            },
            None => None,
        };
        let mut n = scene.take_node(self.slot);
        n.parent = link;
        scene.put_node(self.slot, n);
        Ok(())
    }

    /// Deletes the sprite: its handle is invalid afterwards, its children
    /// move to the scene's root, its entries and sequences are dropped and
    /// the image references it held are released.
    pub fn delete(&self, scene: &mut Scene) -> (r: Result<(), SceneError>)
        requires
            old(scene).wf(),
        ensures
            final(scene).wf(),
            final(scene).camera() == old(scene).camera(),
            final(scene).nodes().len() == old(scene).nodes().len(),
            final(scene).res().images() == old(scene).res().images(),
            final(scene).res().sources() == old(scene).res().sources(),
            r.is_ok() == old(scene).valid(*self),
            r.is_err() ==> r == Err::<(), SceneError>(SceneError::InvalidSprite) && final(scene).nodes() == old(scene).nodes()
                && final(scene).res() == old(scene).res(),
            r.is_ok() ==> final(scene).res().refs() == release_all(old(scene).res().refs(), old(scene).nodes()[self.slot as int].held@),
            r.is_ok() ==> {
                let n = final(scene).nodes()[self.slot as int];
                &&& n.anims@.len() == 0 && n.sequences@.len() == 0 && n.player.is_none() && n.held@.len() == 0
            },
            r.is_ok() ==> !final(scene).valid(*self)
                && forall|j: int| 0 <= j < final(scene).nodes().len() && j != self.slot ==> {
                    let o = #[trigger] old(scene).nodes()[j];
                    let n = final(scene).nodes()[j];
                    &&& same_but_parent(o, n)
                    &&& n.parent == (if o.parent == Some(self.slot) { None } else { o.parent })
                },
    {
        if self.slot >= scene.nodes.len() || !scene.nodes[self.slot].alive {
            return Err(SceneError::InvalidSprite);
        }
        let mut n = scene.take_node(self.slot);
        let held = n.held;
        n.held = Vec::new();
        n.alive = false;
        n.anims = Vec::new();
        n.player = None;
        n.parent = None;
        n.sequences = Vec::new();
        scene.put_node(self.slot, n);
        let ghost mid = scene.nodes();
        let mut i: usize = 0;
        while i < scene.nodes.len()
            invariant
                scene.wf(),
                scene.res() == old(scene).res(),
                scene.camera() == old(scene).camera(),
                i <= scene.nodes().len(),
                scene.nodes().len() == old(scene).nodes().len(),
                self.slot < scene.nodes().len(),
                !scene.nodes()[self.slot as int].alive,
                scene.nodes()[self.slot as int] == mid[self.slot as int],
                forall|j: int| 0 <= j < scene.nodes().len() && j != self.slot ==> {
                    let o = #[trigger] old(scene).nodes()[j];
                    let c = scene.nodes()[j];
                    &&& same_but_parent(o, c)
                    &&& c.parent == (if j < i && o.parent == Some(self.slot) { None } else { o.parent })
                },
            decreases scene.nodes().len() - i,
        {
            if i != self.slot && scene.nodes[i].parent == Some(self.slot) {
                let mut c = scene.take_node(i);
                c.parent = None;
                scene.put_node(i, c);
            }
            i = i + 1;
        }
        scene.release_held(&held);
        Ok(())
    }
}

/// What the rendering backend is asked to draw for one sprite.
#[derive(Clone, Copy, Debug, PartialEq, Eq, Structural)]
pub struct DrawCall {
    pub sprite: Sprite,
    pub image: Ident,
    pub x: i128,
    pub y: i128,
    pub rot: i128,
    pub scale: i64,
    pub r: i64,
    pub g: i64,
    pub b: i64,
    pub alpha: i64,
    pub blend: l2d_blend,
}

pub open spec fn clamp_alpha(a: i32) -> int {
    if a < 0 {
        0
    } else if a > 1000 {
        1000
    } else {
        a as int
    }
}

/// Alpha or colour channel `prop` of node `i` multiplied down from its
/// ancestors (1000 is full), following at most `fuel` parent links.
pub open spec fn world_tint(nodes: Seq<Node>, i: int, prop: usize, fuel: nat) -> int
    decreases fuel,
{
    let own = clamp_alpha(nodes[i].values@[prop as int]);
    if fuel == 0 {
        own
    } else {
        match nodes[i].parent {
            Some(p) => if p < nodes.len() {
                own * world_tint(nodes, p as int, prop, (fuel - 1) as nat) / 1000
            } else {
                own
            },
            None => own,
        }
    }
}

/// Whether node `i` is drawn: live, visible and showing an image.
pub open spec fn drawable(nodes: Seq<Node>, i: int) -> bool {
    nodes[i].alive && nodes[i].visible && nodes[i].image.is_some()
}

/// Drawing order: by z-order, then by creation.
pub open spec fn draws_before(nodes: Seq<Node>, i: int, j: int) -> bool {
    nodes[i].order < nodes[j].order || (nodes[i].order == nodes[j].order && i < j)
}

/// The draw call of node `i`.
/// Positions are in view coordinates: the scene position less the camera
/// offset `cam` (at `PROP_X` and `PROP_Y`).
pub open spec fn draw_of(nodes: Seq<Node>, cam: Seq<i32>, i: int) -> DrawCall {
    DrawCall {
        sprite: Sprite { slot: i as usize },
        image: nodes[i].image.unwrap(),
        x: (world_pos(nodes, i, PROP_X, nodes.len()) - cam[PROP_X as int]) as i128,
        y: (world_pos(nodes, i, PROP_Y, nodes.len()) - cam[PROP_Y as int]) as i128,
        rot: world(nodes, i, PROP_ROT, nodes.len()) as i128,
        scale: world_scale(nodes, i, nodes.len()) as i64,
        r: world_tint(nodes, i, PROP_R, nodes.len()) as i64,
        g: world_tint(nodes, i, PROP_G, nodes.len()) as i64,
        b: world_tint(nodes, i, PROP_B, nodes.len()) as i64,
        alpha: world_tint(nodes, i, PROP_A, nodes.len()) as i64,
        blend: nodes[i].blend,
    }
}

impl Scene {
    fn world_tint_exec(&self, i: usize, prop: usize, fuel: usize) -> (r: i64)
        requires
            self.wf(),
            i < self.nodes().len(),
            prop < NPROPS,
        ensures
            r == world_tint(self.nodes(), i as int, prop, fuel as nat),
            0 <= r <= 1000,
        decreases fuel,
    {
        assert(node_wf(self.nodes()[i as int], self.nodes().len()));
        let a = self.nodes[i].values[prop];
        let own: i64 = if a < 0 {
            0
        } else if a > 1000 {
            1000
        } else {
            a as i64
        };
        if fuel == 0 {
            return own;
        }
        match self.nodes[i].parent {
            Some(p) => {
                let up = self.world_tint_exec(p, prop, fuel - 1);
                assert(own * up <= 1000 * 1000) by (nonlinear_arith)
                    requires 0 <= own <= 1000, 0 <= up <= 1000;
                assert(0 <= own * up) by (nonlinear_arith)
                    requires 0 <= own, 0 <= up;
                let r = own * up / 1000;
                r
            },
            None => own,
        }
    }

    fn draws_before_exec(&self, i: usize, j: usize) -> (r: bool)
        requires
            i < self.nodes().len(),
            j < self.nodes().len(),
        ensures
            r == draws_before(self.nodes(), i as int, j as int),
    {
        self.nodes[i].order < self.nodes[j].order || (self.nodes[i].order == self.nodes[j].order && i < j)
    }

    /// Slots of the drawn sprites in drawing order.
    fn draw_order(&self) -> (r: Vec<usize>)
        requires
            self.wf(),
        ensures
            forall|k: int| 0 <= k < r@.len() ==> (#[trigger] r@[k]) < self.nodes().len(),
            forall|j: int| 0 <= j < self.nodes().len() ==> (r@.contains(j as usize) <==> drawable(self.nodes(), j)),
            forall|a: int, b: int| 0 <= a < b < r@.len() ==> draws_before(self.nodes(), r@[a] as int, r@[b] as int),
    {
        let mut out: Vec<usize> = Vec::new();
        let mut i: usize = 0;
        while i < self.nodes.len()
            invariant
                i <= self.nodes().len(),
                forall|k: int| 0 <= k < out@.len() ==> (#[trigger] out@[k]) < i,
                forall|j: int| 0 <= j < self.nodes().len() ==> (out@.contains(j as usize) <==> (j < i && drawable(self.nodes(), j))),
                forall|a: int, b: int| 0 <= a < b < out@.len() ==> draws_before(self.nodes(), out@[a] as int, out@[b] as int),
            decreases self.nodes().len() - i,
        {
            if self.nodes[i].alive && self.nodes[i].visible && self.nodes[i].image.is_some() {
                let mut pos: usize = 0;
                while pos < out.len() && !self.draws_before_exec(i, out[pos])
                    invariant
                        i < self.nodes().len(),
                        pos <= out@.len(),
                        forall|k: int| 0 <= k < out@.len() ==> (#[trigger] out@[k]) < i,
                        forall|k: int| 0 <= k < pos ==> draws_before(self.nodes(), #[trigger] out@[k] as int, i as int),
                    decreases out@.len() - pos,
                {
                    proof {
                        let o = out@[pos as int];
                        assert(o < i);
                    }
                    pos = pos + 1;
                }
                let ghost before = out@;
                out.insert(pos, i);
                proof {
                    assert(out@ == before.insert(pos as int, i));
                    assert forall|k: int| 0 <= k < out@.len() implies (#[trigger] out@[k]) < i + 1 by {
                        if k < pos {
                            assert(out@[k] == before[k]);
                        } else if k > pos {
                            assert(out@[k] == before[k - 1]);
                        }
                    }
                    assert forall|a: int, b: int| 0 <= a < b < out@.len()
                        implies draws_before(self.nodes(), out@[a] as int, out@[b] as int) by {
                        if b < pos {
                            assert(out@[a] == before[a] && out@[b] == before[b]);
                        } else if b == pos {
                            assert(out@[a] == before[a]);
                        } else if a < pos {
                            assert(out@[a] == before[a] && out@[b] == before[b - 1]);
                            assert(draws_before(self.nodes(), before[a] as int, i as int));
                            if pos < before.len() {
                                assert(draws_before(self.nodes(), i as int, before[pos as int] as int));
                                if b - 1 > pos {
                                    assert(draws_before(self.nodes(), before[pos as int] as int, before[b - 1] as int));
                                }
                            }
                        } else if a == pos {
                            assert(out@[b] == before[b - 1]);
                            assert(draws_before(self.nodes(), i as int, before[pos as int] as int));
                            if b - 1 > pos {
                                assert(draws_before(self.nodes(), before[pos as int] as int, before[b - 1] as int));
                            }
                        } else {
                            assert(out@[a] == before[a - 1] && out@[b] == before[b - 1]);
                        }
                    }
                    assert forall|j: int| 0 <= j < self.nodes().len()
                        implies (out@.contains(j as usize) <==> (j < i + 1 && drawable(self.nodes(), j))) by {
                        if j == i {
                            assert(out@[pos as int] == i);
                        } else if out@.contains(j as usize) {
                            let k = choose|k: int| 0 <= k < out@.len() && out@[k] == j as usize;
                            if k < pos {
                                assert(before[k] == j as usize);
                            } else {
                                assert(before[k - 1] == j as usize);
                            }
                        } else if j < i && drawable(self.nodes(), j) {
                            let k = choose|k: int| 0 <= k < before.len() && before[k] == j as usize;
                            if k < pos {
                                assert(out@[k] == j as usize);
                            } else {
                                assert(out@[k + 1] == j as usize);
                            }
                        }
                    }
                }
            }
            i = i + 1;
        }
        out
    }

    /// The draw calls of one frame, in ascending z-order with ties in
    /// creation order: one per live, visible sprite showing an image.
    /// Positions are offsets scaled by the parent's composed scale and added
    /// to the parent's position; scale, colour channels and alpha multiply
    /// down the parent chain; rotation adds up along it (it does not turn the
    /// children's offsets). Draw positions are in view coordinates: the
    /// camera offset is subtracted. Sprites without an image draw nothing.
    pub fn render(&self) -> (r: Vec<DrawCall>)
        requires
            self.wf(),
        ensures
            forall|j: int| 0 <= j < self.nodes().len()
                ==> (drawable(self.nodes(), j) <==> exists|k: int| 0 <= k < r@.len() && (#[trigger] r@[k]).sprite.slot == j),
            forall|k: int| 0 <= k < r@.len() ==> (#[trigger] r@[k]).sprite.slot < self.nodes().len()
                && r@[k] == draw_of(self.nodes(), self.camera().1, r@[k].sprite.slot as int),
            forall|a: int, b: int| 0 <= a < b < r@.len()
                ==> draws_before(self.nodes(), r@[a].sprite.slot as int, r@[b].sprite.slot as int),
    {
        let order = self.draw_order();
        let cnt = self.nodes.len();
        let mut out: Vec<DrawCall> = Vec::new();
        let mut k: usize = 0;
        while k < order.len()
            invariant
                self.wf(),
                cnt == self.nodes().len(),
                k <= order@.len(),
                out@.len() == k,
                forall|m: int| 0 <= m < order@.len() ==> (#[trigger] order@[m]) < self.nodes().len(),
                forall|j: int| 0 <= j < self.nodes().len() ==> (order@.contains(j as usize) <==> drawable(self.nodes(), j)),
                forall|m: int| 0 <= m < k ==> (#[trigger] out@[m]).sprite.slot == order@[m]
                    && out@[m] == draw_of(self.nodes(), self.camera().1, order@[m] as int),
            decreases order@.len() - k,
        {
            let i = order[k];
            proof {
                assert(order@.contains(i));
                assert(drawable(self.nodes(), i as int));
                assert forall|q: int| 0 <= q < self.nodes().len() implies (#[trigger] self.nodes()[q]).values@.len() == NPROPS by {
                    assert(node_wf(self.nodes()[q], self.nodes().len()));
                }
                lemma_world_bound(self.nodes(), i as int, PROP_ROT, self.nodes().len());
            }
            proof {
                assert((cnt + 1) * 0x1_0000_0000 * 1000 <= 0x1_0000_0000_0000_0000 * 0x1_0000_0000 * 1000) by (nonlinear_arith)
                    requires cnt <= 0xffff_ffff_ffff_ffff;
            }
            let x = self.world_pos_exec(i, PROP_X, cnt) - self.camera_values[PROP_X] as i128;
            let y = self.world_pos_exec(i, PROP_Y, cnt) - self.camera_values[PROP_Y] as i128;
            let scale = self.world_scale_exec(i, cnt);
            let rot = self.world_exec(i, PROP_ROT);
            let r = self.world_tint_exec(i, PROP_R, self.nodes.len());
            let g = self.world_tint_exec(i, PROP_G, self.nodes.len());
            let b = self.world_tint_exec(i, PROP_B, self.nodes.len());
            let alpha = self.world_tint_exec(i, PROP_A, self.nodes.len());
            let image = match self.nodes[i].image {
                Some(im) => im,
                None => Ident(0),
            };
            out.push(DrawCall { sprite: Sprite { slot: i }, image, x, y, rot, scale, r, g, b, alpha, blend: self.nodes[i].blend });
            k = k + 1;
        }
        proof {
            assert forall|j: int| 0 <= j < self.nodes().len()
                implies (drawable(self.nodes(), j) <==> exists|m: int| 0 <= m < out@.len() && (#[trigger] out@[m]).sprite.slot == j) by {
                if drawable(self.nodes(), j) {
                    assert(order@.contains(j as usize));
                    let m = choose|m: int| 0 <= m < order@.len() && order@[m] == j as usize;
                    assert(0 <= m < k);
                    assert(j <= cnt);
                    let d = out@[m];
                    assert(d.sprite.slot == order@[m]);
                    assert(d.sprite.slot == j);
                }
                if exists|m: int| 0 <= m < out@.len() && (#[trigger] out@[m]).sprite.slot == j {
                    let m = choose|m: int| 0 <= m < out@.len() && (#[trigger] out@[m]).sprite.slot == j;
                    assert(order@[m] == j as usize);
                    assert(order@.contains(j as usize));
                }
            }
        }
        out
    }
}

impl Sprite {
    /// Current value of a property (`PROP_X` ... `PROP_B`).
    pub fn value(&self, scene: &Scene, prop: usize) -> (r: Result<i32, SceneError>)
        requires
            scene.wf(),
            prop < NPROPS,
        ensures
            r.is_ok() == scene.valid(*self),
            r.is_err() ==> r == Err::<i32, SceneError>(SceneError::InvalidSprite),
            r matches Ok(v) ==> v == scene.nodes()[self.slot as int].values@[prop as int],
    {
        if self.slot >= scene.nodes.len() || !scene.nodes[self.slot].alive {
            return Err(SceneError::InvalidSprite);
        }
        assert(node_wf(scene.nodes()[self.slot as int], scene.nodes().len()));
        Ok(scene.nodes[self.slot].values[prop])
    }

    /// The image the sprite shows, if any.
    pub fn image(&self, scene: &Scene) -> (r: Result<Option<Ident>, SceneError>)
        ensures
            r.is_ok() == scene.valid(*self),
            r.is_err() ==> r == Err::<Option<Ident>, SceneError>(SceneError::InvalidSprite),
            r matches Ok(v) ==> v == scene.nodes()[self.slot as int].image,
    {
        if self.slot >= scene.nodes.len() || !scene.nodes[self.slot].alive {
            return Err(SceneError::InvalidSprite);
        }
        Ok(scene.nodes[self.slot].image)
    }

    /// Number of animation entries still running on the sprite.
    pub fn active_anims(&self, scene: &Scene) -> (r: Result<usize, SceneError>)
        ensures
            r.is_ok() == scene.valid(*self),
            r.is_err() ==> r == Err::<usize, SceneError>(SceneError::InvalidSprite),
            r matches Ok(v) ==> v == scene.nodes()[self.slot as int].anims@.len(),
    {
        if self.slot >= scene.nodes.len() || !scene.nodes[self.slot].alive {
            return Err(SceneError::InvalidSprite);
        }
        Ok(scene.nodes[self.slot].anims.len())
    }

    /// The sprite's sequence playback state, if a sequence was played.
    pub fn playback(&self, scene: &Scene) -> (r: Result<Option<Player>, SceneError>)
        ensures
            r.is_ok() == scene.valid(*self),
            r.is_err() ==> r == Err::<Option<Player>, SceneError>(SceneError::InvalidSprite),
            r matches Ok(v) ==> v == scene.nodes()[self.slot as int].player,
    {
        if self.slot >= scene.nodes.len() || !scene.nodes[self.slot].alive {
            return Err(SceneError::InvalidSprite);
        }
        Ok(scene.nodes[self.slot].player)
    }
}

proof fn lemma_world_same(o: Seq<Node>, n: Seq<Node>, i: int, axis: usize, fuel: nat)
    requires
        o.len() == n.len(),
        0 <= i < o.len(),
        forall|j: int| 0 <= j < o.len() ==> (#[trigger] o[j]).values@ == n[j].values@ && o[j].parent == n[j].parent,
    ensures
        world(o, i, axis, fuel) == world(n, i, axis, fuel),
        world_tint(o, i, axis, fuel) == world_tint(n, i, axis, fuel),
        world_pos(o, i, axis, fuel) == world_pos(n, i, axis, fuel),
        world_scale(o, i, fuel) == world_scale(n, i, fuel),
    decreases fuel,
{
    assert(o[i].values@ == n[i].values@ && o[i].parent == n[i].parent);
    if fuel > 0 {
        match o[i].parent {
            Some(p) => if p < o.len() {
                lemma_world_same(o, n, p as int, axis, (fuel - 1) as nat);
            },
            None => {},
        }
    }
}

/// Under a fixed camera offset, a scene whose sprites have no animation
/// entries and no sequence draws the same after a step of any length: the same sprites, in the same
/// order, with the same draw calls.
pub proof fn law_static_scene_renders_same(o: Seq<Node>, n: Seq<Node>, cam: Seq<i32>, dt: u64)
    requires
        o.len() == n.len(),
        forall|j: int| 0 <= j < o.len() ==> stepped(#[trigger] o[j], n[j], dt),
        forall|j: int| 0 <= j < o.len() ==> (#[trigger] o[j]).anims@.len() == 0 && o[j].player.is_none(),
    ensures
        forall|j: int| 0 <= j < o.len() ==> (drawable(o, j) == drawable(n, j) && #[trigger] draw_of(o, cam, j) == draw_of(n, cam, j)),
        forall|i: int, j: int| 0 <= i < o.len() && 0 <= j < o.len() ==> #[trigger] draws_before(o, i, j) == draws_before(n, i, j),
{
    assert forall|j: int| 0 <= j < o.len() implies (#[trigger] o[j]).values@ == n[j].values@ && o[j].parent == n[j].parent by {
        law_static_sprite_is_still(o[j], n[j], dt);
    }
    assert forall|j: int| 0 <= j < o.len() implies (drawable(o, j) == drawable(n, j) && #[trigger] draw_of(o, cam, j) == draw_of(n, cam, j)) by {
        law_static_sprite_is_still(o[j], n[j], dt);
        lemma_world_same(o, n, j, PROP_X, o.len());
        lemma_world_same(o, n, j, PROP_Y, o.len());
        lemma_world_same(o, n, j, PROP_ROT, o.len());
        lemma_world_same(o, n, j, PROP_R, o.len());
        lemma_world_same(o, n, j, PROP_G, o.len());
        lemma_world_same(o, n, j, PROP_B, o.len());
        lemma_world_same(o, n, j, PROP_A, o.len());
    }
    assert forall|i: int, j: int| 0 <= i < o.len() && 0 <= j < o.len() implies #[trigger] draws_before(o, i, j) == draws_before(n, i, j) by {
        law_static_sprite_is_still(o[i], n[i], dt);
        law_static_sprite_is_still(o[j], n[j], dt);
    }
}

impl Sprite {
    /// Advances this sprite alone by `dt` milliseconds, as a scene step does.
    pub fn step(&self, scene: &mut Scene, dt: u64) -> (r: Result<(), SceneError>)
        requires
            old(scene).wf(),
        ensures
            final(scene).wf(),
            final(scene).res() == old(scene).res(),
            final(scene).camera() == old(scene).camera(),
            final(scene).nodes().len() == old(scene).nodes().len(),
            r.is_ok() == old(scene).valid(*self),
            r.is_err() ==> r == Err::<(), SceneError>(SceneError::InvalidSprite) && final(scene).nodes() == old(scene).nodes(),
            r.is_ok() ==> stepped(old(scene).nodes()[self.slot as int], final(scene).nodes()[self.slot as int], dt)
                && forall|j: int| 0 <= j < final(scene).nodes().len() && j != self.slot ==> final(scene).nodes()[j] == old(scene).nodes()[j],
    {
        if self.slot >= scene.nodes.len() || !scene.nodes[self.slot].alive {
            return Err(SceneError::InvalidSprite);
        }
        let ghost count = scene.nodes().len();
        let n = scene.take_node(self.slot);
        let n = step_node(n, dt, Ghost(count));
        scene.put_node(self.slot, n);
        Ok(())
    }
}

impl Scene {
    /// Moves the camera to (`x`, `y`, `z`) over `dt` milliseconds.
    pub fn set_translate(&mut self, x: i32, y: i32, z: i32, dt: u32, flags: u32)
        requires
            old(self).wf(),
        ensures
            final(self).wf(),
            final(self).nodes() == old(self).nodes(),
            final(self).res() == old(self).res(),
            final(self).camera() == anim_set(anim_set(anim_set(old(self).camera(), PROP_X, x, dt, flags), PROP_Y, y, dt, flags),
                PROP_SCALE, z, dt, flags),
    {
        self.camera_to(PROP_X, x, dt, flags);
        self.camera_to(PROP_Y, y, dt, flags);
        self.camera_to(PROP_SCALE, z, dt, flags);
    }

    fn camera_to(&mut self, prop: usize, value: i32, dt: u32, flags: u32)
        requires
            old(self).wf(),
            prop < NPROPS,
        ensures
            final(self).wf(),
            final(self).nodes() == old(self).nodes(),
            final(self).res() == old(self).res(),
            final(self).camera() == anim_set(old(self).camera(), prop, value, dt, flags),
    {
        proof {
            let c = self.camera_anims@;
            assert forall|k: int| 0 <= k < c.len() implies (#[trigger] c[k]).prop < NPROPS && c[k].entry.wf() by {
                assert(c[k] == self.camera().0[k]);
            }
            lemma_without_prop_wf(c, prop);
        }
        let mut anims = drop_prop(&self.camera_anims, prop);
        if dt == 0 {
            self.camera_values.set(prop, value);
        } else {
            let start = self.camera_values[prop];
            anims.push(PropAnim { prop, entry: AnimEntry::new(start, value, dt, flags) });
        }
        self.camera_anims = anims;
        proof {
            assert(self.nodes() == old(self).nodes());
        }
    }

    /// Current camera offset (x, y, z).
    pub fn camera_offset(&self) -> (r: (i32, i32, i32))
        requires
            self.wf(),
        ensures
            r == (self.camera().1[PROP_X as int], self.camera().1[PROP_Y as int], self.camera().1[PROP_SCALE as int]),
    {
        (self.camera_values[PROP_X], self.camera_values[PROP_Y], self.camera_values[PROP_SCALE])
    }
}

/// Node `i` and each ancestor within `fuel` links has no animation entries
/// and no sequence.
pub open spec fn static_chain(nodes: Seq<Node>, i: int, fuel: nat) -> bool
    decreases fuel,
{
    &&& nodes[i].anims@.len() == 0
    &&& nodes[i].player.is_none()
    &&& (fuel > 0 ==> match nodes[i].parent {
        Some(p) => p < nodes.len() ==> static_chain(nodes, p as int, (fuel - 1) as nat),
        None => true,
    })
}

proof fn lemma_chain_same(o: Seq<Node>, n: Seq<Node>, dt: u64, i: int, axis: usize, fuel: nat)
    requires
        o.len() == n.len(),
        0 <= i < o.len(),
        forall|j: int| 0 <= j < o.len() ==> stepped(#[trigger] o[j], n[j], dt),
        static_chain(o, i, fuel),
    ensures
        o[i].values@ == n[i].values@,
        world(o, i, axis, fuel) == world(n, i, axis, fuel),
        world_tint(o, i, axis, fuel) == world_tint(n, i, axis, fuel),
        world_pos(o, i, axis, fuel) == world_pos(n, i, axis, fuel),
        world_scale(o, i, fuel) == world_scale(n, i, fuel),
    decreases fuel,
{
    assert(stepped(o[i], n[i], dt));
    law_static_sprite_is_still(o[i], n[i], dt);
    if fuel > 0 {
        match o[i].parent {
            Some(p) => if p < o.len() {
                lemma_chain_same(o, n, dt, p as int, axis, (fuel - 1) as nat);
            },
            None => {},
        }
    }
}

/// Under a fixed camera offset, a sprite that, like each of its ancestors,
/// has no animation entries and no sequence draws the same after a step of
/// any length, whatever the other
/// sprites do.
pub proof fn law_static_sprite_renders_same(o: Seq<Node>, n: Seq<Node>, cam: Seq<i32>, dt: u64, i: int)
    requires
        o.len() == n.len(),
        0 <= i < o.len(),
        forall|j: int| 0 <= j < o.len() ==> stepped(#[trigger] o[j], n[j], dt),
        static_chain(o, i, o.len()),
    ensures
        drawable(o, i) == drawable(n, i),
        draw_of(o, cam, i) == draw_of(n, cam, i),
{
    assert(stepped(o[i], n[i], dt));
    law_static_sprite_is_still(o[i], n[i], dt);
    lemma_chain_same(o, n, dt, i, PROP_X, o.len());
    lemma_chain_same(o, n, dt, i, PROP_Y, o.len());
    lemma_chain_same(o, n, dt, i, PROP_ROT, o.len());
    lemma_chain_same(o, n, dt, i, PROP_R, o.len());
    lemma_chain_same(o, n, dt, i, PROP_G, o.len());
    lemma_chain_same(o, n, dt, i, PROP_B, o.len());
    lemma_chain_same(o, n, dt, i, PROP_A, o.len());
}

proof fn lemma_single_entry(v: Seq<i32>, prop: usize, target: i32, d: u32, flags: u32, dt: u64)
    requires
        v.len() == NPROPS,
        prop < NPROPS,
        d > 0,
    ensures
        ({
            let st = anim_set((Seq::<PropAnim>::empty(), v), prop, target, d, flags);
            let e = AnimEntry { start: v[prop as int], target, elapsed: 0, duration: d, flags };
            let r = step_result(e, dt);
            step_anims(st.0, st.1, dt) == (
                if r.done { Seq::<PropAnim>::empty() } else { seq![PropAnim { prop, entry: step_entry(e, dt) }] },
                v.update(prop as int, r.value),
            )
        }),
{
    let st = anim_set((Seq::<PropAnim>::empty(), v), prop, target, d, flags);
    assert(without_prop(Seq::<PropAnim>::empty(), prop) == Seq::<PropAnim>::empty());
    let e = AnimEntry { start: v[prop as int], target, elapsed: 0, duration: d, flags };
    let pa = PropAnim { prop, entry: e };
    assert(st.1 == v);
    assert(st.0 == Seq::<PropAnim>::empty().push(pa));
    assert(st.0.len() == 1);
    assert(st.0.drop_last() =~= Seq::<PropAnim>::empty());
    assert(st.0.last() == pa);
    assert(step_anims(st.0.drop_last(), st.1, dt) == (st.0.drop_last(), v));
    let r = step_result(e, dt);
    if !r.done {
        assert(Seq::<PropAnim>::empty().push(PropAnim { prop, entry: step_entry(e, dt) })
            =~= seq![PropAnim { prop, entry: step_entry(e, dt) }]);
    }
}

/// A sprite property animated without flags over `d` milliseconds, stepped by
/// exactly `d`, holds its target and keeps no entry.
pub proof fn law_sprite_exact_duration(v: Seq<i32>, prop: usize, target: i32, d: u32)
    requires
        v.len() == NPROPS,
        prop < NPROPS,
        d > 0,
    ensures
        ({
            let st = anim_set((Seq::<PropAnim>::empty(), v), prop, target, d, 0);
            let after = step_anims(st.0, st.1, d as u64);
            after.0.len() == 0 && after.1 == v.update(prop as int, target)
        }),
{
    lemma_single_entry(v, prop, target, d, 0, d as u64);
    law_exact_duration(AnimEntry { start: v[prop as int], target, elapsed: 0, duration: d, flags: 0 });
}

/// With repeat and reverse, a sprite property stepped by twice the duration
/// is back at its start, with its entry still running.
pub proof fn law_sprite_repeat_reverse(v: Seq<i32>, prop: usize, target: i32, d: u32)
    requires
        v.len() == NPROPS,
        prop < NPROPS,
        d > 0,
    ensures
        ({
            let st = anim_set((Seq::<PropAnim>::empty(), v), prop, target, d, ANIM_REPEAT | ANIM_REVERSE);
            let after = step_anims(st.0, st.1, (2 * d) as u64);
            after.0.len() == 1 && after.1 == v
        }),
{
    let f = ANIM_REPEAT | ANIM_REVERSE;
    assert(f & ANIM_REPEAT != 0 && f & ANIM_REVERSE != 0 && f & ANIM_EXTRAPOLATE == 0) by (bit_vector)
        requires f == 1u32 | 2u32;
    lemma_single_entry(v, prop, target, d, f, (2 * d) as u64);
    law_repeat_reverse_cycle(AnimEntry { start: v[prop as int], target, elapsed: 0, duration: d, flags: f });
    assert(v.update(prop as int, v[prop as int]) =~= v);
}

/// With extrapolation, a sprite property stepped by twice the duration is past
/// its target by one displacement, with its entry still running.
pub proof fn law_sprite_extrapolate(v: Seq<i32>, prop: usize, target: i32, d: u32)
    requires
        v.len() == NPROPS,
        prop < NPROPS,
        d > 0,
        i32::MIN <= 2 * target - v[prop as int] <= i32::MAX,
    ensures
        ({
            let st = anim_set((Seq::<PropAnim>::empty(), v), prop, target, d, ANIM_EXTRAPOLATE);
            let after = step_anims(st.0, st.1, (2 * d) as u64);
            after.0.len() == 1 && after.1 == v.update(prop as int, (2 * target - v[prop as int]) as i32)
        }),
{
    let f = ANIM_EXTRAPOLATE;
    assert(f & ANIM_EXTRAPOLATE != 0) by (bit_vector)
        requires f == 4u32;
    lemma_single_entry(v, prop, target, d, f, (2 * d) as u64);
    law_extrapolate(AnimEntry { start: v[prop as int], target, elapsed: 0, duration: d, flags: f });
}

} // verus!
