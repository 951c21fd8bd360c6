use rust_render_101::transition::{EasingType, Transition, TransitionTarget};

#[test]
fn linear_point_transition_reaches_its_end() {
    let mut t = Transition::initialize(
        EasingType::Linear,
        2000,
        TransitionTarget::Point { point: (0, 0) },
        TransitionTarget::Point { point: (10, 0) },
    );
    assert_eq!(*t.get_current_point(), (0, 0));
    t.step(1000);
    assert_eq!(*t.get_current_point(), (5, 0));
    assert!(!t.is_finished());
    t.step(1000);
    assert_eq!(*t.get_current_point(), (10, 0));
    assert!(t.is_finished());
}

#[test]
fn stepping_past_the_end_stays_at_the_end() {
    let mut t = Transition::initialize(
        EasingType::SmoothStep,
        300,
        TransitionTarget::Points { points: vec![(0, 0), (-7, 3)] },
        TransitionTarget::Points { points: vec![(13, -9), (100, 100)] },
    );
    t.step(500);
    assert_eq!(t.get_current_points(), &vec![(13, -9), (100, 100)]);
    t.step(17);
    t.step(4000);
    assert_eq!(t.get_current_points(), &vec![(13, -9), (100, 100)]);
}

#[test]
fn easing_curves_at_midpoint() {
    // t = 1/2: linear 1/2, smooth step 1/2, quad-in 1/4, quad-out 3/4 of d³ = 8
    assert_eq!(EasingType::Linear.ease(1, 2), 4);
    assert_eq!(EasingType::SmoothStep.ease(1, 2), 4);
    assert_eq!(EasingType::QuadIn.ease(1, 2), 2);
    assert_eq!(EasingType::QuadOut.ease(1, 2), 6);
}

#[test]
fn quad_in_blend_truncates_toward_zero() {
    let mut t = Transition::initialize(
        EasingType::QuadIn,
        4,
        TransitionTarget::Point { point: (0, 0) },
        TransitionTarget::Point { point: (-10, 10) },
    );
    t.step(1);
    // progress 1/16: -10/16 and 10/16 truncate to 0
    assert_eq!(*t.get_current_point(), (0, 0));
    t.step(2);
    // progress 9/16: -5.625 and 5.625 truncate to -5 and 5
    assert_eq!(*t.get_current_point(), (-5, 5));
}

#[test]
fn reset_new_restarts_with_new_targets() {
    let mut t = Transition::initialize(
        EasingType::QuadOut,
        100,
        TransitionTarget::Points { points: vec![(0, 0)] },
        TransitionTarget::Points { points: vec![(10, 10)] },
    );
    t.step(100);
    assert!(t.is_finished());
    t.reset_new(
        TransitionTarget::Points { points: vec![(10, 10), (20, 20)] },
        TransitionTarget::Points { points: vec![(30, 30), (40, 40)] },
    );
    assert!(!t.is_finished());
    assert_eq!(t.get_start_points(), &vec![(10, 10), (20, 20)]);
    assert_eq!(t.get_end_points(), &vec![(30, 30), (40, 40)]);
    assert_eq!(t.get_current_points(), &vec![(10, 10)]);
    t.step(50);
    assert_eq!(t.get_current_points(), &vec![(25, 25), (35, 35)]);
    t.reset();
    assert!(!t.is_finished());
}
