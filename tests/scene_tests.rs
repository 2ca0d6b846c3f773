use lib2d::{
    l2d_blend, l2d_image_format, Ident, IdentTable, ImageHandle, ResourceError, Resources, Scene,
    SceneError, Sprite, ANIM_EASE_OUT, ANIM_REPEAT, PROP_A, PROP_B, PROP_R, PROP_X, PROP_Y,
    SPRITE_ANCHOR_LEFT, SPRITE_ANCHOR_TOP,
};

fn scene_with(names: &[&str], t: &mut IdentTable) -> Scene {
    let mut scene = Scene::new(Resources::init_default());
    for n in names {
        let id = Ident::from_str(t, n);
        assert_eq!(scene.set_image_data(id, 2, 2, l2d_image_format::l2d_IMAGE_FORMAT_A_8, vec![0; 4]), Ok(()));
    }
    scene
}

fn boxed(scene: &mut Scene, image: Ident, x: i32, y: i32, order: i32) -> Sprite {
    let s = Sprite::new(scene, image, 0);
    s.set_size(scene, 10, 10, SPRITE_ANCHOR_LEFT | SPRITE_ANCHOR_TOP).unwrap();
    s.xy(scene, x, y, 0, 0).unwrap();
    s.set_order(scene, order).unwrap();
    s
}

#[test]
fn ease_out_covers_more_than_half_early() {
    let mut t = IdentTable::new();
    let mut scene = scene_with(&["a"], &mut t);
    let s = Sprite::new(&mut scene, Ident::from_str(&mut t, "a"), 0);
    s.xy(&mut scene, 0, 0, 0, 0).unwrap();
    s.xy(&mut scene, 100, 0, 2000, ANIM_EASE_OUT).unwrap();
    scene.step(1000);
    let x = s.value(&scene, PROP_X).unwrap();
    assert!(x > 50 && x < 100);
    assert_eq!(x, 75);
    scene.step(1000);
    assert_eq!(s.value(&scene, PROP_X).unwrap(), 100);
    assert_eq!(s.active_anims(&scene).unwrap(), 0);
}

#[test]
fn sequence_at_double_speed_stops_on_last_frame() {
    let mut t = IdentTable::new();
    let mut scene = scene_with(&["f0", "f1", "f2"], &mut t);
    let f: Vec<Ident> = ["f0", "f1", "f2"].iter().map(|n| Ident::from_str(&mut t, n)).collect();
    let s = Sprite::new(&mut scene, f[0], 0);
    let q = s.new_sequence(&mut scene).unwrap();
    for id in &f {
        s.sequence_add_frame(&mut scene, q, *id, 1000, 0).unwrap();
    }
    s.sequence_play(&mut scene, q, 0, 200, 0).unwrap();
    scene.step(1500);
    assert_eq!(s.image(&scene).unwrap(), Some(f[2]));
    scene.step(1000);
    let p = s.playback(&scene).unwrap().unwrap();
    assert_eq!(p.frame, 2);
    assert!(!p.playing);
    assert_eq!(s.image(&scene).unwrap(), Some(f[2]));
}

#[test]
fn sequence_repeat_loops_to_first_frame() {
    let mut t = IdentTable::new();
    let mut scene = scene_with(&["f0", "f1"], &mut t);
    let f0 = Ident::from_str(&mut t, "f0");
    let f1 = Ident::from_str(&mut t, "f1");
    let s = Sprite::new(&mut scene, f0, 0);
    let q = s.new_sequence(&mut scene).unwrap();
    s.sequence_add_frame(&mut scene, q, f0, 100, 0).unwrap();
    s.sequence_add_frame(&mut scene, q, f1, 100, 0).unwrap();
    s.sequence_play(&mut scene, q, 1, 100, ANIM_REPEAT).unwrap();
    assert_eq!(s.image(&scene).unwrap(), Some(f1));
    scene.step(150);
    assert_eq!(s.image(&scene).unwrap(), Some(f0));
    s.sequence_stop(&mut scene).unwrap();
    scene.step(1000);
    assert_eq!(s.image(&scene).unwrap(), Some(f0));
}

#[test]
fn sequence_errors() {
    let mut t = IdentTable::new();
    let mut scene = scene_with(&["a"], &mut t);
    let a = Ident::from_str(&mut t, "a");
    let missing = Ident::from_str(&mut t, "missing");
    let s = Sprite::new(&mut scene, a, 0);
    assert_eq!(s.sequence_add_frame(&mut scene, 0, a, 10, 0), Err(SceneError::InvalidSequenceFrame));
    let q = s.new_sequence(&mut scene).unwrap();
    assert_eq!(s.sequence_play(&mut scene, q, 0, 100, 0), Err(SceneError::InvalidSequenceFrame));
    assert_eq!(
        s.sequence_add_frame(&mut scene, q, missing, 10, 0),
        Err(SceneError::Resource(ResourceError::ResourceNotFound))
    );
    s.sequence_add_frame(&mut scene, q, a, 10, 0).unwrap();
    assert_eq!(s.sequence_play(&mut scene, q, 0, 0, 0), Err(SceneError::InvalidSpeed));
}

#[test]
fn click_hits_topmost_sprite() {
    let mut t = IdentTable::new();
    let mut scene = scene_with(&["a"], &mut t);
    let a = Ident::from_str(&mut t, "a");
    let parent = boxed(&mut scene, a, 0, 0, 0);
    let c = boxed(&mut scene, a, 0, 0, 5);
    let sib = boxed(&mut scene, a, 5, 5, 1);
    c.set_parent(&mut scene, Some(parent)).unwrap();
    sib.set_parent(&mut scene, Some(parent)).unwrap();
    assert_eq!(scene.feed_click(7, 7, 0), Some(c));
    assert_eq!(sib.feed_click(&scene, 7, 7, 0), Ok(true));
    assert_eq!(scene.feed_click(12, 12, 0), Some(sib));
    assert_eq!(scene.feed_click(50, 50, 0), None);
}

#[test]
fn click_ties_go_to_latest_sprite() {
    let mut t = IdentTable::new();
    let mut scene = scene_with(&["a"], &mut t);
    let a = Ident::from_str(&mut t, "a");
    let _first = boxed(&mut scene, a, 0, 0, 3);
    let second = boxed(&mut scene, a, 0, 0, 3);
    assert_eq!(scene.feed_click(1, 1, 0), Some(second));
}

#[test]
fn child_position_is_relative_to_parent() {
    let mut t = IdentTable::new();
    let mut scene = scene_with(&["a"], &mut t);
    let a = Ident::from_str(&mut t, "a");
    let p = boxed(&mut scene, a, 100, 100, 0);
    let c = boxed(&mut scene, a, 5, 5, 1);
    c.set_parent(&mut scene, Some(p)).unwrap();
    assert_eq!(scene.feed_click(106, 106, 0), Some(c));
    assert_eq!(c.feed_click(&scene, 6, 6, 0), Ok(false));
    c.set_parent(&mut scene, None).unwrap();
    assert_eq!(c.feed_click(&scene, 6, 6, 0), Ok(true));
}

#[test]
fn cycles_are_refused() {
    let mut t = IdentTable::new();
    let mut scene = scene_with(&["a"], &mut t);
    let a = Ident::from_str(&mut t, "a");
    let p = Sprite::new(&mut scene, a, 0);
    let c = Sprite::new(&mut scene, a, 0);
    c.set_parent(&mut scene, Some(p)).unwrap();
    assert_eq!(p.set_parent(&mut scene, Some(c)), Err(SceneError::InvalidParent));
    assert_eq!(p.set_parent(&mut scene, Some(p)), Err(SceneError::InvalidParent));
}

#[test]
fn destroyed_scene_invalidates_sprites() {
    let mut t = IdentTable::new();
    let mut scene = scene_with(&["a"], &mut t);
    let a = Ident::from_str(&mut t, "a");
    let s = Sprite::new(&mut scene, a, 0);
    scene.destroy();
    assert_eq!(s.xy(&mut scene, 1, 1, 0, 0), Err(SceneError::InvalidSprite));
    assert_eq!(s.value(&scene, PROP_X), Err(SceneError::InvalidSprite));
    assert_eq!(s.new_sequence(&mut scene), Err(SceneError::InvalidSprite));
    assert_eq!(scene.feed_click(0, 0, 0), None);
    assert!(scene.render().is_empty());
}

#[test]
fn deleted_sprite_is_invalid_and_children_detach() {
    let mut t = IdentTable::new();
    let mut scene = scene_with(&["a"], &mut t);
    let a = Ident::from_str(&mut t, "a");
    let p = boxed(&mut scene, a, 100, 0, 0);
    let c = boxed(&mut scene, a, 0, 0, 0);
    c.set_parent(&mut scene, Some(p)).unwrap();
    assert_eq!(p.delete(&mut scene), Ok(()));
    assert_eq!(p.delete(&mut scene), Err(SceneError::InvalidSprite));
    assert_eq!(scene.feed_click(1, 1, 0), Some(c));
}

#[test]
fn static_sprite_renders_the_same_after_steps() {
    let mut t = IdentTable::new();
    let mut scene = scene_with(&["a"], &mut t);
    let a = Ident::from_str(&mut t, "a");
    let _s = boxed(&mut scene, a, 3, 4, 0);
    let before = scene.render();
    scene.step(1);
    scene.step(12345);
    scene.step(0);
    assert_eq!(scene.render(), before);
}

#[test]
fn render_orders_by_z_then_creation_and_composes() {
    let mut t = IdentTable::new();
    let mut scene = scene_with(&["a"], &mut t);
    let a = Ident::from_str(&mut t, "a");
    let missing = Ident::from_str(&mut t, "missing");
    let top = boxed(&mut scene, a, 1, 1, 9);
    let low = boxed(&mut scene, a, 10, 20, 0);
    let mid = boxed(&mut scene, a, 2, 3, 0);
    let nothing = boxed(&mut scene, missing, 0, 0, 0);
    mid.set_parent(&mut scene, Some(low)).unwrap();
    low.a(&mut scene, 500, 0, 0).unwrap();
    mid.a(&mut scene, 500, 0, 0).unwrap();
    nothing.blend(&mut scene, l2d_blend::l2d_BLEND_PREMULT).unwrap();
    low.rgb(&mut scene, 500, 1000, 2000, 0, 0).unwrap();
    mid.rgb(&mut scene, 500, 0, 1000, 0, 0).unwrap();
    low.rot(&mut scene, 30, 0, 0).unwrap();
    mid.rot(&mut scene, 15, 0, 0).unwrap();
    let d = scene.render();
    assert_eq!(d.len(), 3);
    assert_eq!(d[0].sprite, low);
    assert_eq!(d[1].sprite, mid);
    assert_eq!(d[2].sprite, top);
    assert_eq!((d[1].x, d[1].y), (12, 23));
    assert_eq!(d[0].alpha, 500);
    assert_eq!(d[1].alpha, 250);
    assert_eq!(d[2].alpha, 1000);
    assert_eq!((d[1].r, d[1].g, d[1].b), (250, 0, 1000));
    assert_eq!((d[0].r, d[0].g, d[0].b), (500, 1000, 1000));
    assert_eq!((d[0].rot, d[1].rot, d[2].rot), (30, 45, 0));
    assert_eq!(d[0].blend, l2d_blend::l2d_BLEND_DEFAULT);
}

#[test]
fn hidden_sprite_is_not_drawn_and_can_drop_anims() {
    let mut t = IdentTable::new();
    let mut scene = scene_with(&["a"], &mut t);
    let a = Ident::from_str(&mut t, "a");
    let s = boxed(&mut scene, a, 0, 0, 0);
    s.xy(&mut scene, 100, 100, 1000, 0).unwrap();
    s.set_visible(&mut scene, false).unwrap();
    assert_eq!(s.active_anims(&scene).unwrap(), 2);
    assert!(scene.render().is_empty());
    s.set_stop_anims_on_hide(&mut scene, true).unwrap();
    s.set_visible(&mut scene, false).unwrap();
    assert_eq!(s.active_anims(&scene).unwrap(), 0);
}

#[test]
fn colour_channels_animate_independently() {
    let mut t = IdentTable::new();
    let mut scene = scene_with(&["a"], &mut t);
    let a = Ident::from_str(&mut t, "a");
    let s = Sprite::new(&mut scene, a, 0);
    s.a(&mut scene, 0, 1000, 0).unwrap();
    s.rgb(&mut scene, 0, 0, 0, 500, 0).unwrap();
    scene.step(500);
    assert_eq!(s.value(&scene, PROP_R).unwrap(), 0);
    assert_eq!(s.value(&scene, PROP_B).unwrap(), 0);
    assert_eq!(s.value(&scene, PROP_A).unwrap(), 500);
    s.rgba(&mut scene, 1000, 1000, 1000, 1000, 0, 0).unwrap();
    assert_eq!(s.active_anims(&scene).unwrap(), 0);
    s.xy(&mut scene, 10, 20, 100, 0).unwrap();
    s.xy(&mut scene, 30, 40, 100, 0).unwrap();
    assert_eq!(s.active_anims(&scene).unwrap(), 2);
    scene.step(100);
    assert_eq!(s.value(&scene, PROP_X).unwrap(), 30);
    assert_eq!(s.value(&scene, PROP_Y).unwrap(), 40);
    s.scale(&mut scene, 2000, 100, 0).unwrap();
    s.rot(&mut scene, 90, 100, 0).unwrap();
    s.abort_anim(&mut scene).unwrap();
    assert_eq!(s.active_anims(&scene).unwrap(), 0);
}

#[test]
fn failed_image_bind_draws_nothing() {
    let mut t = IdentTable::new();
    let mut scene = scene_with(&[], &mut t);
    let s = Sprite::new(&mut scene, Ident::from_str(&mut t, "nowhere"), 0);
    assert_eq!(s.image(&scene).unwrap(), None);
    assert!(scene.render().is_empty());
}

#[test]
fn resources_cache_and_errors() {
    let mut t = IdentTable::new();
    let a = Ident::from_str(&mut t, "a");
    let mut r = Resources::init_default();
    assert_eq!(
        r.set_image_data(a, 2, 2, l2d_image_format::l2d_IMAGE_FORMAT_RGB_565, vec![0; 7]),
        Err(ResourceError::DecodeFailure)
    );
    assert_eq!(r.load_image(a, 0), Err(ResourceError::ResourceNotFound));
    r.set_image_data(a, 2, 2, l2d_image_format::l2d_IMAGE_FORMAT_RGB_565, vec![0; 8]).unwrap();
    let h = r.load_image(a, 0).unwrap();
    assert_eq!(r.load_image(a, 0), Ok(h));
    assert_eq!(r.load_image(a, 1), Ok(ImageHandle(1)));
    let info = r.image_info(h).unwrap();
    assert_eq!((info.width, info.height, info.flags), (2, 2, 0));
    assert_eq!(r.image_release(h), Ok(()));
    assert_eq!(r.image_release(h), Ok(()));
    assert_eq!(r.image_release(h), Err(ResourceError::InvalidHandle));
    assert_eq!(r.image_release(ImageHandle(7)), Err(ResourceError::InvalidHandle));
    assert_eq!(lib2d::resources::bytes_per_pixel(l2d_image_format::l2d_IMAGE_FORMAT_RGB_888), 3);
}

#[test]
fn camera_moves_over_time() {
    let mut scene = Scene::new(Resources::init_default());
    scene.set_translate(100, -50, 7, 1000, 0);
    assert_eq!(scene.camera_offset(), (0, 0, 0));
    scene.step(500);
    assert_eq!(scene.camera_offset(), (50, -25, 3));
    scene.step(500);
    assert_eq!(scene.camera_offset(), (100, -50, 7));
    scene.set_translate(1, 2, 3, 0, 0);
    assert_eq!(scene.camera_offset(), (1, 2, 3));
    scene.set_viewport(640, 480);
    assert_eq!(scene.viewport(), (640, 480));
}

#[test]
fn sprite_step_moves_only_that_sprite() {
    let mut t = IdentTable::new();
    let mut scene = scene_with(&["a"], &mut t);
    let a = Ident::from_str(&mut t, "a");
    let s1 = Sprite::new(&mut scene, a, 0);
    let s2 = Sprite::new(&mut scene, a, 0);
    s1.xy(&mut scene, 100, 0, 1000, 0).unwrap();
    s2.xy(&mut scene, 100, 0, 1000, 0).unwrap();
    s1.step(&mut scene, 400).unwrap();
    assert_eq!(s1.value(&scene, PROP_X).unwrap(), 40);
    assert_eq!(s2.value(&scene, PROP_X).unwrap(), 0);
    assert_eq!(scene.get_resources().image_info(ImageHandle(0)).map(|i| i.width), Some(2));
}

#[test]
fn sprites_share_and_release_image_references() {
    let mut t = IdentTable::new();
    let mut scene = scene_with(&["a", "f"], &mut t);
    let a = Ident::from_str(&mut t, "a");
    let f = Ident::from_str(&mut t, "f");
    let s1 = Sprite::new(&mut scene, a, 0);
    let s2 = Sprite::new(&mut scene, a, 0);
    assert_eq!(scene.get_resources().image_refs(ImageHandle(0)), Some(2));
    let q = s2.new_sequence(&mut scene).unwrap();
    s2.sequence_add_frame(&mut scene, q, f, 10, 0).unwrap();
    assert_eq!(scene.get_resources().image_refs(ImageHandle(1)), Some(1));
    s1.delete(&mut scene).unwrap();
    assert_eq!(scene.get_resources().image_refs(ImageHandle(0)), Some(1));
    scene.destroy();
    assert_eq!(scene.get_resources().image_refs(ImageHandle(0)), Some(0));
    assert_eq!(scene.get_resources().image_refs(ImageHandle(1)), Some(0));
}

#[test]
fn parent_scale_scales_child_offset_and_bounds() {
    let mut t = IdentTable::new();
    let mut scene = scene_with(&["a"], &mut t);
    let a = Ident::from_str(&mut t, "a");
    let p = boxed(&mut scene, a, 100, 100, 0);
    let c = boxed(&mut scene, a, 10, 10, 1);
    c.set_parent(&mut scene, Some(p)).unwrap();
    p.scale(&mut scene, 2000, 0, 0).unwrap();
    let d = scene.render();
    assert_eq!(d[1].sprite, c);
    assert_eq!((d[1].x, d[1].y, d[1].scale), (120, 120, 2000));
    assert_eq!(scene.feed_click(138, 138, 0), Some(c));
    assert_eq!(scene.feed_click(141, 141, 0), None);
}

#[test]
fn camera_offset_shifts_draw_positions() {
    let mut t = IdentTable::new();
    let mut scene = scene_with(&["a"], &mut t);
    let a = Ident::from_str(&mut t, "a");
    let _s = boxed(&mut scene, a, 50, 60, 0);
    scene.set_translate(20, 10, 0, 0, 0);
    let d = scene.render();
    assert_eq!((d[0].x, d[0].y), (30, 50));
    assert_eq!(scene.feed_click(51, 61, 0).is_some(), true);
}
