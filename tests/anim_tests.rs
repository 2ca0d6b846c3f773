use lib2d::anim::value_at_exec;
use lib2d::{AnimEntry, AnimStep, ANIM_EASE_IN, ANIM_EASE_OUT, ANIM_EXTRAPOLATE, ANIM_REPEAT, ANIM_REVERSE};

#[test]
fn exact_duration_reaches_target_and_ends() {
    let mut e = AnimEntry::new(10, 50, 400, 0);
    assert_eq!(e.step(400), AnimStep { value: 50, done: true });
}

#[test]
fn linear_midpoint() {
    let mut e = AnimEntry::new(0, 100, 1000, 0);
    assert_eq!(e.step(250), AnimStep { value: 25, done: false });
    assert_eq!(e.step(250), AnimStep { value: 50, done: false });
}

#[test]
fn repeat_reverse_cycle_returns_to_start() {
    let mut once = AnimEntry::new(0, 100, 500, ANIM_REPEAT | ANIM_REVERSE);
    assert_eq!(once.step(1000).value, 0);
    let mut twice = AnimEntry::new(0, 100, 500, ANIM_REPEAT | ANIM_REVERSE);
    assert_eq!(twice.step(500).value, 100);
    assert_eq!(twice.step(500).value, 0);
}

#[test]
fn repeat_without_reverse_restarts() {
    let mut e = AnimEntry::new(0, 100, 500, ANIM_REPEAT);
    assert_eq!(e.step(750), AnimStep { value: 50, done: false });
}

#[test]
fn extrapolate_continues_past_target() {
    let mut e = AnimEntry::new(10, 40, 300, ANIM_EXTRAPOLATE);
    assert_eq!(e.step(300), AnimStep { value: 40, done: false });
    assert_eq!(e.step(300), AnimStep { value: 70, done: false });
}

#[test]
fn easing_curves_at_half() {
    assert_eq!(value_at_exec(0, 100, 1000, 2000, ANIM_EASE_OUT), 75);
    assert_eq!(value_at_exec(0, 100, 1000, 2000, ANIM_EASE_IN), 25);
    assert_eq!(value_at_exec(0, 100, 1000, 2000, ANIM_EASE_IN | ANIM_EASE_OUT), 50);
    assert_eq!(value_at_exec(0, 1000, 500, 2000, ANIM_EASE_IN | ANIM_EASE_OUT), 156);
}

#[test]
fn decreasing_values_round_toward_start() {
    assert_eq!(value_at_exec(100, 0, 1, 3, 0), 67);
}

#[test]
fn zero_duration_snaps_to_target() {
    let mut e = AnimEntry::new(3, 9, 0, ANIM_REPEAT);
    assert_eq!(e.step(0), AnimStep { value: 9, done: true });
    assert_eq!(value_at_exec(3, 9, 5, 0, 0), 9);
}
