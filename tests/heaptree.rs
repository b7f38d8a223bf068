use aptree::heaptree::{
    eval, is_well_formed, make_app, make_bas, make_lam, Args, EvalError, Expr, ONE, UNIT, ZERO,
};

fn make_ident(args: &mut Args) -> Expr {
    make_lam(args, |_a, ptr| ptr)
}

fn make_const_fn(args: &mut Args) -> Expr {
    make_lam(args, |_a, _ptr| make_bas(UNIT))
}

fn make_lam_true(args: &mut Args) -> Expr {
    make_lam(args, |a, x| make_lam(a, move |_a, _y| x))
}

fn make_lam_false(args: &mut Args) -> Expr {
    make_lam(args, |a, _x| make_lam(a, |_a, y| y))
}

#[test]
fn heaptree_t0() {
    let mut args = Args::with_capacity(128);
    let lam_const = make_const_fn(&mut args);
    let app = make_app(lam_const, make_bas(ONE));
    assert_eq!(Ok(make_bas(UNIT)), eval(app, &mut args));
}

#[test]
fn heaptree_t1() {
    let mut args = Args::with_capacity(128);
    let lam_id = make_ident(&mut args);
    let lam_const = make_const_fn(&mut args);
    let app = make_app(make_app(lam_id, lam_const), make_bas(ONE));
    assert_eq!(Ok(make_bas(UNIT)), eval(app, &mut args));
}

#[test]
fn heaptree_t2() {
    let mut args = Args::with_capacity(128);
    let lam_true = make_lam_true(&mut args);
    let app = make_app(make_app(lam_true, make_bas(ZERO)), make_bas(ONE));
    assert_eq!(Ok(make_bas(ZERO)), eval(app, &mut args));
}

#[test]
fn heaptree_t3() {
    let mut args = Args::with_capacity(128);
    let lam_false = make_lam_false(&mut args);
    let app = make_app(make_app(lam_false, make_bas(ZERO)), make_bas(ONE));
    assert_eq!(Ok(make_bas(ONE)), eval(app, &mut args));
}

#[test]
fn heaptree_apply_constant_is_stuck() {
    let mut args = Args::with_capacity(4);
    let app = make_app(make_bas(ONE), make_bas(ZERO));
    assert_eq!(Err(EvalError::Stuck), eval(app, &mut args));
}

#[test]
fn heaptree_unapplied_abstraction_is_a_value() {
    let mut args = Args::with_capacity(4);
    let lam = make_ident(&mut args);
    let expected = make_ident(&mut Args::with_capacity(4));
    assert_eq!(Ok(expected), eval(lam, &mut args));
    assert_eq!(args.len(), 1);
}

#[test]
fn heaptree_reference_outside_its_body_is_uninitialized() {
    let mut args = Args::with_capacity(4);
    let mut stash = None;
    let lam = make_lam(&mut args, |_a, x| {
        stash = Some(x);
        make_bas(UNIT)
    });
    let app = make_app(lam, stash.take().unwrap());
    assert_eq!(Err(EvalError::Uninitialized { slot: 0 }), eval(app, &mut args));
}

#[test]
fn heaptree_same_program_same_value() {
    let mut a = Args::with_capacity(8);
    let mut b = Args::with_capacity(8);
    let pa = make_app(make_app(make_lam_false(&mut a), make_bas(ZERO)), make_bas(ONE));
    let pb = make_app(make_app(make_lam_false(&mut b), make_bas(ZERO)), make_bas(ONE));
    assert_eq!(eval(pa, &mut a), eval(pb, &mut b));
}

#[test]
fn heaptree_built_programs_are_well_formed() {
    let mut args = Args::with_capacity(8);
    let lam_true = make_lam_true(&mut args);
    let app = make_app(make_app(lam_true, make_bas(ZERO)), make_bas(ONE));
    assert!(is_well_formed(&app, &args));
    assert_eq!(Ok(make_bas(ZERO)), eval(app, &mut args));
}

#[test]
fn heaptree_escaped_reference_is_not_well_formed() {
    let mut args = Args::with_capacity(4);
    let mut stash = None;
    let lam = make_lam(&mut args, |_a, x| {
        stash = Some(x);
        make_bas(UNIT)
    });
    let app = make_app(lam, stash.take().unwrap());
    assert!(!is_well_formed(&app, &args));
}

#[test]
fn heaptree_nested_escaped_reference_is_not_well_formed() {
    let mut args = Args::with_capacity(4);
    let mut stash = None;
    let inner = make_lam(&mut args, |_a, x| {
        stash = Some(x);
        make_bas(UNIT)
    });
    let escaped = stash.take().unwrap();
    let app = make_app(inner, escaped);
    let lam = make_lam(&mut args, move |_a, y| make_app(app, y));
    assert!(!is_well_formed(&lam, &args));
}

#[test]
fn heaptree_written_slot_is_not_well_formed() {
    let mut args = Args::with_capacity(4);
    let app = make_app(make_const_fn(&mut args), make_bas(ONE));
    assert_eq!(Ok(make_bas(UNIT)), eval(app, &mut args));
    assert!(!is_well_formed(&make_bas(ZERO), &args));
    assert!(is_well_formed(&make_bas(ZERO), &Args::with_capacity(0)));
}
