//! A retained-mode 2D scene graph: interned resource names, a shared image
//! cache, sprites in a tree with per-property animations, frame sequences
//! and hit-testing. Times are integer milliseconds; positions, scale,
//! rotation and colour are integers, with 1000 standing for one (full
//! scale, opaque, full colour channel).

pub mod anim;
pub mod ident;
pub mod resources;
pub mod scene;

pub use anim::{
    AnimEntry, AnimStep, ANIM_EASE_IN, ANIM_EASE_OUT, ANIM_EXTRAPOLATE, ANIM_REPEAT, ANIM_REVERSE,
};
pub use ident::{Ident, IdentTable, InvalidIdentError};
pub use resources::{l2d_image_format, ImageHandle, ImageInfo, ResourceError, Resources};
pub use scene::{
    l2d_blend, DrawCall, Frame, Player, Scene, SceneError, Sprite, NPROPS, PROP_A, PROP_B, PROP_G,
    PROP_R, PROP_ROT, PROP_SCALE, PROP_X, PROP_Y, SPRITE_ANCHOR_BOTTOM, SPRITE_ANCHOR_LEFT,
    SPRITE_ANCHOR_RIGHT, SPRITE_ANCHOR_TOP,
};
