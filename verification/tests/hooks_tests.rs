//! Hook behavior: state slots keyed by call order, setters, and the
//! effect-dependency rules.

use review::hooks::{use_effect, use_state, HookContext, HookError, HookValue};

#[test]
fn hooks_single_state() {
    let mut context = HookContext::default();
    {
        let state = use_state(HookValue::Int(7)).build(0, &mut context).unwrap();
        assert_eq!(state.value, HookValue::Int(7));
        state.set(&mut context, HookValue::Int(9)).unwrap();
    }
    context.counter = 0;
    let state = use_state(HookValue::Int(7)).build(0, &mut context).unwrap();
    assert_eq!(state.value, HookValue::Int(9));
}

#[derive(Debug, PartialEq)]
struct Test {
    i: u32,
    f: f32,
}

#[test]
fn hooks_multiple_state() {
    let mut context = HookContext::default();
    {
        let int_state = use_state(HookValue::Int(7)).build(0, &mut context).unwrap();
        let string_state =
            use_state(HookValue::Str("test".to_string())).build(0, &mut context).unwrap();
        let struct_state = use_state(HookValue::Str(format!("{:?}", Test { i: 9, f: 3.4 })))
            .build(0, &mut context)
            .unwrap();

        assert_eq!(int_state.value, HookValue::Int(7));
        assert_eq!(string_state.value, HookValue::Str("test".to_string()));
        assert_eq!(
            struct_state.value,
            HookValue::Str(format!("{:?}", Test { i: 9, f: 3.4 }))
        );

        int_state.set(&mut context, HookValue::Int(9)).unwrap();
        string_state
            .set(&mut context, HookValue::Str("test 2".to_string()))
            .unwrap();
        struct_state
            .set(
                &mut context,
                HookValue::Str(format!("{:?}", Test { i: 1, f: 6.4 })),
            )
            .unwrap();
    }
    context.counter = 0;
    let int_state = use_state(HookValue::Int(7)).build(0, &mut context).unwrap();
    let string_state =
        use_state(HookValue::Str("test".to_string())).build(0, &mut context).unwrap();
    let struct_state = use_state(HookValue::Str(format!("{:?}", Test { i: 9, f: 3.4 })))
        .build(0, &mut context)
        .unwrap();

    assert_eq!(int_state.value, HookValue::Int(9));
    assert_eq!(string_state.value, HookValue::Str("test 2".to_string()));
    assert_eq!(
        struct_state.value,
        HookValue::Str(format!("{:?}", Test { i: 1, f: 6.4 }))
    );
}

#[test]
fn use_state_single_state() {
    let mut context = HookContext::default();
    {
        let state = use_state(HookValue::Int(7)).build(0, &mut context).unwrap();
        assert_eq!(state.value, HookValue::Int(7));
        state.set(&mut context, HookValue::Int(9)).unwrap();
    }
    context.counter = 0;
    let state = use_state(HookValue::Int(7)).build(0, &mut context).unwrap();
    assert_eq!(state.value, HookValue::Int(9));
}

#[test]
fn use_state_multiple_state() {
    let mut context = HookContext::default();
    {
        let int_state = use_state(HookValue::Int(7)).build(0, &mut context).unwrap();
        let string_state =
            use_state(HookValue::Str("test".to_string())).build(0, &mut context).unwrap();
        let struct_state = use_state(HookValue::Str(format!("{:?}", Test { i: 9, f: 3.4 })))
            .build(0, &mut context)
            .unwrap();

        assert_eq!(int_state.value, HookValue::Int(7));
        assert_eq!(string_state.value, HookValue::Str("test".to_string()));
        assert_eq!(
            struct_state.value,
            HookValue::Str(format!("{:?}", Test { i: 9, f: 3.4 }))
        );

        int_state.set(&mut context, HookValue::Int(9)).unwrap();
        string_state
            .set(&mut context, HookValue::Str("test 2".to_string()))
            .unwrap();
        struct_state
            .set(
                &mut context,
                HookValue::Str(format!("{:?}", Test { i: 1, f: 6.4 })),
            )
            .unwrap();
    }
    context.counter = 0;
    let int_state = use_state(HookValue::Int(7)).build(0, &mut context).unwrap();
    let string_state =
        use_state(HookValue::Str("test".to_string())).build(0, &mut context).unwrap();
    let struct_state = use_state(HookValue::Str(format!("{:?}", Test { i: 9, f: 3.4 })))
        .build(0, &mut context)
        .unwrap();

    assert_eq!(int_state.value, HookValue::Int(9));
    assert_eq!(string_state.value, HookValue::Str("test 2".to_string()));
    assert_eq!(
        struct_state.value,
        HookValue::Str(format!("{:?}", Test { i: 1, f: 6.4 }))
    );
}

/// Runs one render's worth of effect bookkeeping: asks the context which
/// effects are due and reports each as run, returning how many fired and
/// whether a cleanup was due first.
fn drive_effects(context: &mut HookContext, produced_cleanup: bool) -> (usize, bool) {
    let runs = context.post_render();
    let mut fired = 0;
    let mut cleanup_was_due = false;
    for run in &runs {
        if run.run_cleanup {
            cleanup_was_due = true;
        }
        context.note_effect_result(run.slot, produced_cleanup).unwrap();
        fired += 1;
    }
    (fired, cleanup_was_due)
}

#[test]
fn effect_call() {
    let mut context = HookContext::default();
    let mut counter = 0;

    use_effect(None).build(&mut context).unwrap();
    let (fired, _) = drive_effects(&mut context, false);
    counter += fired;

    assert_eq!(counter, 1);
}

#[test]
fn effect_call_with_dependency() {
    let mut context = HookContext::default();
    let mut dep: i64 = 0;
    let mut counter = 0;

    use_effect(Some(HookValue::Int(dep))).build(&mut context).unwrap();
    let (fired, _) = drive_effects(&mut context, false);
    counter += fired;
    assert_eq!(counter, 1);

    context.counter = 0;
    use_effect(Some(HookValue::Int(dep))).build(&mut context).unwrap();
    let (fired, _) = drive_effects(&mut context, false);
    counter += fired;
    assert_eq!(counter, 1);

    dep += 1;
    context.counter = 0;
    use_effect(Some(HookValue::Int(dep))).build(&mut context).unwrap();
    let (fired, _) = drive_effects(&mut context, false);
    counter += fired;
    assert_eq!(counter, 2);
}

#[test]
fn effect_call_with_cleanup() {
    // The effect runs after every render and leaves a cleanup behind; the
    // cleanup is pending until the effect next fires, and runs just before
    // it does.
    let mut context = HookContext::default();
    let mut counter = 0;
    let mut clean = 1;

    use_effect(None).build(&mut context).unwrap();
    let (fired, cleanup_was_due) = drive_effects(&mut context, true);
    counter += fired;
    assert!(!cleanup_was_due);
    assert_eq!(counter, 1);
    assert_eq!(clean, 1);

    context.counter = 0;
    use_effect(None).build(&mut context).unwrap();
    let (fired, cleanup_was_due) = drive_effects(&mut context, true);
    if cleanup_was_due {
        clean = 0;
    }
    counter += fired;
    assert_eq!(counter, 2);
    assert_eq!(clean, 0);
}

#[test]
fn conditional_hook_is_detected() {
    // A hook sequence that changes between renders is a detectable error,
    // never a silent reinterpretation.
    let mut context = HookContext::default();
    use_effect(None).build(&mut context).unwrap();
    let _ = context.post_render();

    context.counter = 0;
    let result = use_state(HookValue::Int(7)).build(0, &mut context);
    assert_eq!(result.unwrap_err(), HookError::TypeMismatch);
}

#[test]
fn effect_runs_once_with_constant_dependency() {
    let mut context = HookContext::default();
    let mut counter = 0;
    for _ in 0..3 {
        context.counter = 0;
        use_effect(Some(HookValue::Unit)).build(&mut context).unwrap();
        let (fired, _) = drive_effects(&mut context, false);
        counter += fired;
    }
    assert_eq!(counter, 1);
}
