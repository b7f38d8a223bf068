use aptree::arraytree::EvalError;
use aptree::arraytree_lam::{ExprDest, ExprRef, Program, ONE, UNIT, ZERO};

fn make_const_fn(p: &mut Program, e: ExprDest) -> ExprRef {
    p.make_lam(e, |p, _ptr, e| p.make_const(e, UNIT))
}

fn make_ident(p: &mut Program, e: ExprDest) -> ExprRef {
    p.make_lam(e, |p, ptr, e| p.make_varref(e, ptr))
}

fn make_lam_true(p: &mut Program, e: ExprDest) -> ExprRef {
    p.make_lam(e, |p, x_ptr, e| p.make_lam(e, |p, _y_ptr, e| p.make_varref(e, x_ptr)))
}

fn make_lam_false(p: &mut Program, e: ExprDest) -> ExprRef {
    p.make_lam(e, |p, _x_ptr, e| p.make_lam(e, |p, y_ptr, e| p.make_varref(e, y_ptr)))
}

#[test]
fn arraytree_lam_t0() {
    let mut app = Program::build(|p, e| {
        p.make_app(e, |p, e| make_const_fn(p, e), |p, e| p.make_const(e, ZERO))
    });
    assert_eq!(Ok(Some(UNIT)), app.eval());
}

#[test]
fn arraytree_lam_t1() {
    let mut app = Program::build(|p, e| {
        p.make_app(
            e,
            |p, e| p.make_app(e, |p, e| make_ident(p, e), |p, e| make_const_fn(p, e)),
            |p, e| p.make_const(e, ONE),
        )
    });
    assert_eq!(Ok(Some(UNIT)), app.eval());
}

#[test]
fn arraytree_lam_t2() {
    let mut app = Program::build(|p, e| {
        p.make_app(
            e,
            |p, e| p.make_app(e, |p, e| make_lam_true(p, e), |p, e| p.make_const(e, ZERO)),
            |p, e| p.make_const(e, ONE),
        )
    });
    assert_eq!(Ok(Some(ZERO)), app.eval());
}

#[test]
fn arraytree_lam_t3() {
    let mut app = Program::build(|p, e| {
        p.make_app(
            e,
            |p, e| p.make_app(e, |p, e| make_lam_false(p, e), |p, e| p.make_const(e, ZERO)),
            |p, e| p.make_const(e, ONE),
        )
    });
    assert_eq!(Ok(Some(ONE)), app.eval());
}

#[test]
fn arraytree_lam_apply_constant_is_stuck() {
    let mut app = Program::build(|p, e| {
        p.make_app(e, |p, e| p.make_const(e, ONE), |p, e| p.make_const(e, ZERO))
    });
    assert_eq!(Err(EvalError::Stuck { at: 0 }), app.eval());
}

#[test]
fn arraytree_lam_identity_alone_is_a_value() {
    let mut app = Program::build(|p, e| make_ident(p, e));
    assert_eq!(Ok(None), app.eval());
}
