use aptree::heaptree_norc::{eval, make_app, make_bas, make_lam, Args, Expr, ONE, UNIT, ZERO};

fn make_ident(args: &mut Args) -> Expr {
    make_lam(args, |_a, ptr| ptr)
}

fn make_const_fn(args: &mut Args) -> Expr {
    make_lam(args, |_a, _ptr| make_bas(UNIT))
}

fn make_lam_true(args: &mut Args) -> Expr {
    make_lam(args, |a, x| make_lam(a, move |_a, _y| x))
}

fn make_lam_false(args: &mut Args) -> Expr {
    make_lam(args, |a, _x| make_lam(a, |_a, y| y))
}

#[test]
fn heaptree_norc_t0() {
    let mut args = Args::with_capacity(128);
    let lam_const = make_const_fn(&mut args);
    let app = make_app(lam_const, make_bas(ONE));
    assert!(matches!(eval(app, &mut args), Ok(Expr::Bas(UNIT))));
}

#[test]
fn heaptree_norc_t1() {
    let mut args = Args::with_capacity(128);
    let lam_id = make_ident(&mut args);
    let lam_const = make_const_fn(&mut args);
    let app = make_app(make_app(lam_id, lam_const), make_bas(ONE));
    assert!(matches!(eval(app, &mut args), Ok(Expr::Bas(UNIT))));
}

#[test]
fn heaptree_norc_t2() {
    let mut args = Args::with_capacity(128);
    let lam_true = make_lam_true(&mut args);
    let app = make_app(make_app(lam_true, make_bas(ZERO)), make_bas(ONE));
    assert!(matches!(eval(app, &mut args), Ok(Expr::Bas(ZERO))));
}

#[test]
fn heaptree_norc_t3() {
    let mut args = Args::with_capacity(128);
    let lam_false = make_lam_false(&mut args);
    let app = make_app(make_app(lam_false, make_bas(ZERO)), make_bas(ONE));
    assert!(matches!(eval(app, &mut args), Ok(Expr::Bas(ONE))));
}

#[test]
fn heaptree_norc_slots_are_made_per_abstraction() {
    let mut args = Args::with_capacity(128);
    assert_eq!(args.len(), 0);
    let _ = make_lam_true(&mut args);
    assert_eq!(args.len(), 2);
}
