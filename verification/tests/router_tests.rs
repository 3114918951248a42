use hello_egui::router::{EguiRouter, RouterError, UiOutcome};
use hello_egui::transition::{Easing, Transition, TransitionConfig};

#[test]
fn literal_route_beats_parameter() {
    let mut router = EguiRouter::new();
    router.route("/post/{id}", 1).unwrap();
    router.route("/post/new", 2).unwrap();
    router.navigate("/post/new").unwrap();
    let top = router.history.last().unwrap();
    assert_eq!(top.handler, 2);
    assert!(top.params.is_empty());
}

#[test]
fn parameter_route_extracts_params() {
    let mut router = EguiRouter::new();
    router.route("/post/{id}", 1).unwrap();
    router.route("/post/new", 2).unwrap();
    router.navigate("/post/7").unwrap();
    let top = router.history.last().unwrap();
    assert_eq!(top.handler, 1);
    assert_eq!(top.params.len(), 1);
    assert_eq!(top.params[0].0, "id");
    assert_eq!(top.params[0].1, "7");
}

#[test]
fn invalid_pattern_is_rejected_at_registration() {
    let mut router = EguiRouter::new();
    let r = router.route("/post/{id", 1);
    assert_eq!(r, Err(RouterError::InvalidRoute));
    // The bad pattern registered nothing.
    assert_eq!(router.navigate("/post/{id"), Err(RouterError::NotFound));
}

#[test]
fn unmatched_navigation_changes_nothing() {
    let mut router = EguiRouter::new();
    router.route("/", 1).unwrap();
    router.navigate("/").unwrap();
    let r = router.navigate("/missing");
    assert_eq!(r, Err(RouterError::NotFound));
    assert_eq!(router.history.len(), 1);
}

#[test]
fn transition_completion_after_duration() {
    // A forward navigation of 300 ms, advanced in 50 ms steps: every step but
    // the last keeps animating; the last reports completion, and after it the
    // router is idle on the new route.
    let mut router = EguiRouter::new().with_default_duration(300);
    router.route("/", 7).unwrap();
    router.navigate("/").unwrap();
    for _ in 0..5 {
        match router.ui(50) {
            UiOutcome::Transitioning { top, forward, .. } => {
                assert_eq!(top, 0);
                assert!(forward);
            }
            other => panic!("expected an animating tick, got {:?}", other),
        }
    }
    assert_eq!(router.ui(50), UiOutcome::Done { top: 0 });
    assert_eq!(router.ui(50), UiOutcome::Idle { top: 0 });
    assert_eq!(router.history.last().unwrap().handler, 7);
}

#[test]
fn back_with_single_entry_is_noop() {
    let mut router = EguiRouter::new();
    router.route("/", 1).unwrap();
    router.navigate_transition("/", TransitionConfig::none()).unwrap();
    let _ = router.ui(1000);
    assert_eq!(router.history.len(), 1);
    router.back();
    assert!(router.current_transition.is_none());
    assert_eq!(router.history.len(), 1);
    assert_eq!(router.ui(16), UiOutcome::Idle { top: 0 });
}

#[test]
fn back_pops_after_transition_completes() {
    let mut router = EguiRouter::new().with_default_duration(100);
    router.route("/", 1).unwrap();
    router.route("/detail", 2).unwrap();
    router.navigate("/").unwrap();
    let _ = router.ui(1000);
    router.navigate("/detail").unwrap();
    let _ = router.ui(1000);
    assert_eq!(router.history.len(), 2);

    router.back();
    match router.ui(40) {
        UiOutcome::Transitioning { top, prev, forward, .. } => {
            assert_eq!(top, 1);
            assert_eq!(prev, Some(0));
            assert!(!forward);
        }
        other => panic!("expected an animating tick, got {:?}", other),
    }
    // The popped entry stays until the transition completes.
    assert_eq!(router.history.len(), 2);
    assert_eq!(router.ui(60), UiOutcome::DonePop { top: Some(0) });
    assert_eq!(router.history.len(), 1);
    assert_eq!(router.history.last().unwrap().handler, 1);
}

#[test]
fn new_navigation_replaces_inflight_transition() {
    let mut router = EguiRouter::new().with_default_duration(100);
    router.route("/a", 1).unwrap();
    router.route("/b", 2).unwrap();
    router.navigate("/a").unwrap();
    let _ = router.ui(80);
    router.navigate("/b").unwrap();
    // The replacement starts over from zero elapsed time.
    let t = router.current_transition.unwrap();
    assert_eq!(t.elapsed_ms, 0);
    assert!(t.forward);
    assert_eq!(router.history.len(), 2);
    match router.ui(80) {
        UiOutcome::Transitioning { top, .. } => assert_eq!(top, 1),
        other => panic!("expected an animating tick, got {:?}", other),
    }
    assert_eq!(router.ui(80), UiOutcome::Done { top: 1 });
}

#[test]
fn empty_router_draws_nothing() {
    let mut router = EguiRouter::new();
    assert_eq!(router.ui(16), UiOutcome::Nothing);
}

#[test]
fn transition_config_builders() {
    let fade = TransitionConfig::fade();
    assert_eq!(fade.tr_in, Transition::Fade);
    assert_eq!(fade.tr_out, Transition::Fade);
    let none = TransitionConfig::none();
    assert_eq!(none.tr_in, Transition::Instant);
    assert_eq!(none.duration_ms, Some(0));
    let slide = TransitionConfig::slide();
    assert_eq!(slide.tr_in, Transition::Slide(1000));
    assert_eq!(slide.tr_out, Transition::Slide(-100));
    let tuned = TransitionConfig::slide()
        .with_duration(250)
        .with_easing(Easing::QuadInOut);
    assert_eq!(tuned.duration_ms, Some(250));
    assert_eq!(tuned.easing, Easing::QuadInOut);
}

#[test]
fn none_transition_completes_immediately() {
    // An instant swap has duration zero, whatever default the router carries.
    let mut router = EguiRouter::new().with_default_duration(300);
    router.route("/", 1).unwrap();
    router
        .navigate_transition("/", TransitionConfig::none())
        .unwrap();
    assert_eq!(router.ui(0), UiOutcome::Done { top: 0 });
    assert_eq!(router.ui(0), UiOutcome::Idle { top: 0 });
}

#[test]
fn progress_is_time_based() {
    let mut router = EguiRouter::new().with_default_duration(200);
    router.route("/", 1).unwrap();
    router.navigate("/").unwrap();
    match router.ui(50) {
        UiOutcome::Transitioning { progress_milli, .. } => assert_eq!(progress_milli, 250),
        other => panic!("expected an animating tick, got {:?}", other),
    }
    match router.ui(100) {
        UiOutcome::Transitioning { progress_milli, .. } => assert_eq!(progress_milli, 750),
        other => panic!("expected an animating tick, got {:?}", other),
    }
}

#[test]
fn too_many_parameters_are_rejected() {
    // The matcher supports at most 25 named parameters per route; a pattern
    // past that is rejected at registration, like any other invalid pattern.
    let mut router = EguiRouter::new();
    let mut pattern = String::new();
    for i in 0..26 {
        pattern.push_str(&format!("/{{p{}}}", i));
    }
    assert_eq!(router.route(&pattern, 1), Err(RouterError::InvalidRoute));
    // At the cap itself, registration succeeds.
    let mut ok_pattern = String::new();
    for i in 0..25 {
        ok_pattern.push_str(&format!("/{{q{}}}", i));
    }
    assert_eq!(router.route(&ok_pattern, 2), Ok(()));
}

#[test]
fn conflicting_registration_is_rejected() {
    let mut router = EguiRouter::new();
    assert_eq!(router.route("/post/new", 1), Ok(()));
    assert_eq!(router.route("/post/new", 2), Err(RouterError::InvalidRoute));
    // The first registration stands.
    router.navigate("/post/new").unwrap();
    assert_eq!(router.history.last().unwrap().handler, 1);
}

#[test]
fn escaped_braces_are_literal_not_parameters() {
    // Doubled braces escape a literal brace: a pattern full of them has no
    // parameters and registers fine, however many braces it spells.
    let mut router = EguiRouter::new();
    let mut pattern = String::from("/lit");
    for _ in 0..30 {
        pattern.push_str("{{}}");
    }
    assert_eq!(router.route(&pattern, 9), Ok(()));
    // The registered route matches the unescaped spelling.
    let mut path = String::from("/lit");
    for _ in 0..30 {
        path.push_str("{}");
    }
    router.navigate(&path).unwrap();
    assert_eq!(router.history.last().unwrap().handler, 9);
}
