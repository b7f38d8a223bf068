use aptree::{eval, make_app, make_bas, make_lam, Args, Expr};

fn make_ident(args: &mut Args) -> Expr {
    make_lam(args, |_a, ptr| ptr)
}

fn make_const_fn(args: &mut Args) -> Expr {
    make_lam(args, |_a, _ptr| make_bas("()"))
}

fn make_lam_true(args: &mut Args) -> Expr {
    make_lam(args, |a, x| make_lam(a, move |_a, _y| x))
}

fn make_lam_false(args: &mut Args) -> Expr {
    make_lam(args, |a, _x| make_lam(a, |_a, y| y))
}

#[test]
fn lib_t0() {
    let mut args = Args::with_capacity(16);
    let lam_const = make_const_fn(&mut args);
    let app = make_app(lam_const, make_bas("1"));
    assert_eq!(Ok(make_bas("()")), eval(app, &mut args));
}

#[test]
fn lib_t1() {
    let mut args = Args::with_capacity(16);
    let lam_id = make_ident(&mut args);
    let lam_const = make_const_fn(&mut args);
    let app = make_app(make_app(lam_id, lam_const), make_bas("1"));
    assert_eq!(Ok(make_bas("()")), eval(app, &mut args));
}

#[test]
fn lib_t2() {
    let mut args = Args::with_capacity(16);
    let lam_true = make_lam_true(&mut args);
    let app = make_app(make_app(lam_true, make_bas("0")), make_bas("1"));
    assert_eq!(Ok(make_bas("0")), eval(app, &mut args));
}

#[test]
fn lib_t3() {
    let mut args = Args::with_capacity(16);
    let lam_false = make_lam_false(&mut args);
    let app = make_app(make_app(lam_false, make_bas("0")), make_bas("1"));
    assert_eq!(Ok(make_bas("1")), eval(app, &mut args));
}
