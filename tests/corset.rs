use corset::check::{check_constraint, check_plookup, CheckError};
use corset::codetyper::Tty;
use corset::column::{Column, ColumnSet, Handle};
use corset::compiler::{compile, SymbolsTable};
use corset::expr::{eval, Expression, Op};
use corset::field::Felt;
use corset::names::CompileError;
use corset::parser::{parse, Builtin, Constraint, ConstraintsSet};
use corset::trace::Trace;
use corset::validate::{bind, check, ConstraintSet};

fn felts(v: &[u64]) -> Vec<Felt> {
    v.iter().map(|x| Felt::from_u64(*x)).collect()
}

fn column(module: &str, name: &str, v: &[u64]) -> Column {
    Column { handle: Handle::new(module, name), padding_value: None, values: Some(felts(v)) }
}

fn col_ref(cols: &ColumnSet, name: &str) -> Expression {
    let h = Handle::new("m", name);
    let id = cols.position(&h).unwrap();
    Expression::Column { handle: h, id, shift: 0 }
}

fn set_of(cols: Vec<Column>) -> ColumnSet {
    let mut s = ColumnSet::new();
    for c in cols {
        assert!(s.insert(c).is_some());
    }
    s
}

fn is_column(c: &Constraint, name: &str) -> bool {
    matches!(c, Constraint::Column(n) if n == name)
}

#[test]
fn parse_round_trip() {
    let cs = compile("(defcolumns A B) (= A B)").unwrap();
    assert_eq!(cs.constraints.len(), 1);
    match &cs.constraints[0] {
        Constraint::Funcall { func, args } => {
            assert_eq!(*func, Builtin::Sub);
            assert_eq!(args.len(), 2);
            assert!(is_column(&args[0], "A"));
            assert!(is_column(&args[1], "B"));
        }
        _ => panic!("expected a call"),
    }
}

#[test]
fn alias_chain_resolves_to_final_column() {
    let cs = compile("(defcolumns A) (defalias B A) (defalias C B) (= C 0)").unwrap();
    assert_eq!(cs.constraints.len(), 1);
    let c = &cs.constraints[0];
    match c {
        Constraint::Funcall { func, args } => {
            assert_eq!(*func, Builtin::Sub);
            assert!(is_column(&args[0], "A"));
            assert!(matches!(args[1], Constraint::Const(0)));
        }
        _ => panic!("expected a call"),
    }
    let good = set_of(vec![column("m", "A", &[0, 0, 0])]);
    let e = bind(c, &"m".to_string(), &good).unwrap();
    assert_eq!(check_constraint(&e, &None, &good.cols), Ok(()));
    let bad = set_of(vec![column("m", "A", &[0, 1, 0])]);
    let e = bind(c, &"m".to_string(), &bad).unwrap();
    assert_eq!(check_constraint(&e, &None, &bad.cols), Err(CheckError::Vanishing { row: 1 }));
}

#[test]
fn function_inlining() {
    let cs = compile("(defcolumns X Y) (defun f (x y) (- x y)) (f X Y)").unwrap();
    assert_eq!(cs.constraints.len(), 1);
    match &cs.constraints[0] {
        Constraint::Funcall { func, args } => {
            assert_eq!(*func, Builtin::Sub);
            assert!(is_column(&args[0], "X"));
            assert!(is_column(&args[1], "Y"));
        }
        _ => panic!("expected a call"),
    }
}

#[test]
fn cycle_detection() {
    assert!(compile("(defalias A B) (defalias B A)").is_ok());
    let mut t = SymbolsTable::new();
    t.insert_alias(&"A".to_string(), &"B".to_string()).unwrap();
    t.insert_alias(&"B".to_string(), &"A".to_string()).unwrap();
    assert!(matches!(t.resolve_symbol(&"A".to_string()), Err(CompileError::CircularDefinition(_))));
    assert!(matches!(
        compile("(defalias A B) (defalias B A) (= A 0)"),
        Err(CompileError::CircularDefinition(_))
    ));
}

#[test]
fn plookup_positive() {
    let cols = set_of(vec![column("m", "X", &[1, 2, 3]), column("m", "Y", &[2, 1])]);
    let parents = vec![col_ref(&cols, "X")];
    let children = vec![col_ref(&cols, "Y")];
    assert_eq!(check_plookup(&parents, &children, &cols.cols), Ok(()));
}

#[test]
fn plookup_negative() {
    let cols = set_of(vec![column("m", "X", &[1, 2, 3]), column("m", "Y", &[4])]);
    let parents = vec![col_ref(&cols, "X")];
    let children = vec![col_ref(&cols, "Y")];
    assert_eq!(check_plookup(&parents, &children, &cols.cols), Err(CheckError::LookupMiss { row: 0 }));
}

#[test]
fn plookup_arity_mismatch() {
    let cols = set_of(vec![column("m", "X", &[1]), column("m", "Y", &[1])]);
    let parents = vec![col_ref(&cols, "X"), col_ref(&cols, "Y")];
    let children = vec![col_ref(&cols, "Y")];
    assert_eq!(check_plookup(&parents, &children, &cols.cols), Err(CheckError::LookupArity));
}

#[test]
fn plookup_ragged_and_missing() {
    let mut cols = set_of(vec![column("m", "X", &[1, 2]), column("m", "Y", &[1])]);
    let parents = vec![col_ref(&cols, "X"), col_ref(&cols, "Y")];
    let children = vec![col_ref(&cols, "X"), col_ref(&cols, "X")];
    assert_eq!(check_plookup(&parents, &children, &cols.cols), Err(CheckError::LookupRagged));
    cols.insert(Column::new(Handle::new("m", "Z")));
    let parents = vec![col_ref(&cols, "Z")];
    let children = vec![col_ref(&cols, "X")];
    assert_eq!(check_plookup(&parents, &children, &cols.cols), Err(CheckError::LookupMissing));
}

#[test]
fn plookup_two_columns_fingerprint() {
    // fingerprint of (a, b) is 2a + 3b: (1, 0) and (0, 1) differ although the sums agree
    let cols = set_of(vec![
        column("m", "A", &[1]),
        column("m", "B", &[0]),
        column("m", "C", &[0]),
        column("m", "D", &[1]),
    ]);
    let parents = vec![col_ref(&cols, "A"), col_ref(&cols, "B")];
    let children = vec![col_ref(&cols, "C"), col_ref(&cols, "D")];
    assert_eq!(check_plookup(&parents, &children, &cols.cols), Err(CheckError::LookupMiss { row: 0 }));
}

#[test]
fn out_of_range_reads() {
    let c = column("m", "A", &[5, 6, 7]);
    assert!(c.get(3, false).is_none());
    assert!(c.get(-1, false).is_none());
    assert!(c.get(1, false).unwrap().equals(&Felt::from_u64(6)));
    assert!(c.get(3, true).unwrap().equals(&Felt::from_u64(5)));
    assert!(c.get(-1, true).unwrap().equals(&Felt::from_u64(7)));
    assert!(c.get(-4, true).unwrap().equals(&Felt::from_u64(7)));
    assert_eq!(c.len(), Some(3));
    let empty = Column::new(Handle::new("m", "E"));
    assert!(empty.get(0, true).is_none());
    assert_eq!(empty.len(), None);
}

#[test]
fn eq_and_sub_agree() {
    let cols = set_of(vec![column("m", "A", &[3, 4]), column("m", "B", &[3, 5])]);
    for row in 0..2 {
        let eq = Expression::Funcall(Op::Equals, vec![col_ref(&cols, "A"), col_ref(&cols, "B")]);
        let sub = Expression::Funcall(Op::Sub, vec![col_ref(&cols, "A"), col_ref(&cols, "B")]);
        let a = eval(&eq, row, &cols.cols, false).unwrap();
        let b = eval(&sub, row, &cols.cols, false).unwrap();
        assert!(a.equals(&b));
        assert_eq!(a.is_zero(), row == 0);
    }
}

#[test]
fn field_arithmetic_wraps_modulo_order() {
    let minus_one = Felt::from_i32(-1);
    assert!(minus_one.add(&Felt::from_u64(1)).is_zero());
    assert_eq!(
        minus_one.limbs,
        [0x43e1f593f0000000, 0x2833e84879b97091, 0xb85045b68181585d, 0x30644e72e131a029]
    );
    let p = Felt::from_u64(6).mul(&Felt::from_u64(7));
    assert!(p.equals(&Felt::from_u64(42)));
    assert!(Felt::from_u64(2).sub(&Felt::from_u64(5)).equals(&Felt::from_i32(-3)));
}

#[test]
fn vanishing_without_domain_ignores_missing_rows() {
    let cols = set_of(vec![column("m", "A", &[1, 1, 1])]);
    // A[i+1] - A[i] is missing on the last row, which is not a failure without a domain
    let shifted = Expression::Column { handle: Handle::new("m", "A"), id: 0, shift: 1 };
    let e = Expression::Funcall(Op::Sub, vec![shifted, col_ref(&cols, "A")]);
    assert_eq!(check_constraint(&e, &None, &cols.cols), Ok(()));
    // with a domain, a missing value fails
    let shifted = Expression::Column { handle: Handle::new("m", "A"), id: 0, shift: 1 };
    let e = Expression::Funcall(Op::Sub, vec![shifted, col_ref(&cols, "A")]);
    assert_eq!(check_constraint(&e, &Some(vec![0, 2]), &cols.cols), Err(CheckError::Vanishing { row: 2 }));
}

#[test]
fn empty_trace_and_unfilled_columns() {
    let cols = set_of(vec![column("m", "A", &[]), Column::new(Handle::new("m", "B"))]);
    let a = col_ref(&cols, "A");
    assert_eq!(check_constraint(&a, &None, &cols.cols), Err(CheckError::EmptyTrace));
    let b = col_ref(&cols, "B");
    assert_eq!(check_constraint(&b, &None, &cols.cols), Ok(()));
}

#[test]
fn check_reports_failing_names() {
    let columns = set_of(vec![column("m", "A", &[0, 1]), column("m", "B", &[0, 0])]);
    let fa = col_ref(&columns, "A");
    let fb = col_ref(&columns, "B");
    let cs = ConstraintSet {
        constraints: vec![
            corset::validate::Constraint::Vanishes { name: "a".to_string(), domain: None, expr: fa },
            corset::validate::Constraint::Vanishes { name: "b".to_string(), domain: None, expr: fb },
            corset::validate::Constraint::Vanishes {
                name: "INV_CONSTRAINTS".to_string(),
                domain: None,
                expr: Expression::Const(Felt::from_u64(1)),
            },
        ],
        columns,
    };
    assert_eq!(check(&cs, &None, &vec![]), Err(vec!["a".to_string()]));
    assert_eq!(check(&cs, &None, &vec!["a".to_string()]), Ok(()));
    assert_eq!(check(&cs, &Some(vec!["b".to_string()]), &vec![]), Ok(()));
}

#[test]
fn compile_errors() {
    assert_eq!(compile("(defcolumns A A)").err(), Some(CompileError::Redefinition("A".to_string())));
    assert!(matches!(compile("(defcolumns A) (defun f (x) (+ x y))"), Err(CompileError::UnknownSymbol(_))));
    assert!(matches!(compile("(defcolumns A) (defun f (x) x) (f A A)"), Err(CompileError::Arity(_))));
    assert_eq!(compile("(defcolumns A").err(), Some(CompileError::Parse));
    assert_eq!(compile("(defalias A)").err(), Some(CompileError::InvalidDecl));
    assert!(matches!(compile("(= Q 0)"), Err(CompileError::UnknownSymbol(_))));
    assert!(matches!(compile("(defun f (x) (f x)) (defcolumns A) (f A)"), Err(CompileError::CircularDefinition(_))));
}

#[test]
fn function_aliases_and_nested_calls() {
    let cs = ConstraintsSet::from_str(
        "; a comment\n(defcolumns X Y) (defun f (a b) (* a b)) (defunalias g f) (defun h (u) (g u 2)) (h X)",
    )
    .unwrap();
    assert_eq!(cs.constraints.len(), 1);
    match &cs.constraints[0] {
        Constraint::Funcall { func, args } => {
            assert_eq!(*func, Builtin::Mul);
            assert!(is_column(&args[0], "X"));
            assert!(matches!(args[1], Constraint::Const(2)));
        }
        _ => panic!("expected a call"),
    }
    assert_eq!(parse("(a b) c").unwrap().len(), 2);
}

#[test]
fn tty_indents_and_latches() {
    let mut t = Tty::new();
    t.write("a");
    t.cr();
    t.shift(3);
    t.write("b");
    t.latch_indent();
    t.write("c");
    t.append("d");
    assert_eq!(t.depth(), 2);
    t.unshift();
    assert_eq!(t.depth(), 1);
    assert_eq!(t.page_feed(), "a\n  bcd");
}

#[test]
fn trace_flattens_columns() {
    let mut cols = set_of(vec![column("m", "A", &[7, 8])]);
    let mut b = Column::new(Handle::new("m", "B"));
    b.padding_value = Some(Felt::from_u64(9));
    cols.insert(b);
    let t = Trace::from_columns(&cols);
    assert_eq!(t.column_count(), 2);
    assert_eq!(t.ids, vec!["m__A".to_string(), "m__B".to_string()]);
    let a = t.column_by_name(&"m__A".to_string()).unwrap();
    assert_eq!(a.padding_value, [7, 0, 0, 0]);
    assert_eq!(a.values, vec![[7, 0, 0, 0], [8, 0, 0, 0]]);
    let b = t.column_by_id(1).unwrap();
    assert_eq!(b.padding_value, [9, 0, 0, 0]);
    assert!(b.values.is_empty());
    assert!(t.column_by_id(2).is_none());
}

#[test]
fn tty_separates_nested_depths() {
    let mut t = Tty::new();
    t.shift(2);
    t.shift(3);
    t.write("x");
    let page = t.page_feed();
    assert!(page == " \u{2502}  x" || page == " \u{1b}[90m\u{2502}\u{1b}[0m  x");
}

#[test]
fn inlining_substitutes_nested_builtins() {
    let cs = compile("(defcolumns A B) (defun (g p q) (* (+ p 1) q)) (g B A)").unwrap();
    assert_eq!(cs.constraints.len(), 1);
    match &cs.constraints[0] {
        Constraint::Funcall { func: Builtin::Mul, args } => {
            match &args[0] {
                Constraint::Funcall { func: Builtin::Add, args: inner } => {
                    assert!(is_column(&inner[0], "B"));
                    assert!(matches!(inner[1], Constraint::Const(1)));
                }
                _ => panic!("expected an addition"),
            }
            assert!(is_column(&args[1], "A"));
        }
        _ => panic!("expected a product"),
    }
}

#[test]
fn failure_window_gathers_neighbourhood() {
    let cols = set_of(vec![column("m", "A", &[0, 1, 2, 3]), column("m", "B", &[5, 5, 5, 5])]);
    let e = Expression::Funcall(Op::Sub, vec![col_ref(&cols, "A"), col_ref(&cols, "A"), col_ref(&cols, "B")]);
    let w = corset::check::failure_window(&e, 1, 2, &cols.cols);
    assert_eq!(w.first_row, 0);
    assert_eq!(w.columns, vec![0, 1]);
    assert_eq!(w.rows.len(), 4);
    assert!(w.rows[3][0].unwrap().equals(&Felt::from_u64(3)));
    let w = corset::check::failure_window(&e, 3, 1, &cols.cols);
    assert_eq!(w.first_row, 2);
    assert_eq!(w.rows.len(), 3);
    assert!(w.rows[2][0].is_none());
}

#[test]
fn well_formedness_checks() {
    assert!(Felt::from_u64(5).is_valid());
    assert!(!Felt { limbs: [u64::MAX, u64::MAX, u64::MAX, u64::MAX] }.is_valid());
    let columns = set_of(vec![column("m", "A", &[0, 1])]);
    let e = col_ref(&columns, "A");
    let good = ConstraintSet {
        constraints: vec![corset::validate::Constraint::Vanishes { name: "a".to_string(), domain: None, expr: e }],
        columns,
    };
    assert!(good.well_formed());
    let columns = set_of(vec![column("m", "A", &[0, 1])]);
    let dangling = Expression::Column { handle: Handle::new("m", "Z"), id: 4, shift: 0 };
    let bad = ConstraintSet {
        constraints: vec![corset::validate::Constraint::Vanishes { name: "z".to_string(), domain: None, expr: dangling }],
        columns,
    };
    assert!(!bad.well_formed());
    let mut dup = ColumnSet::new();
    dup.cols.push(column("m", "A", &[]));
    dup.cols.push(column("m", "A", &[]));
    assert!(!dup.is_wf());
    assert!(corset::validate::is_selected(&"a".to_string(), &None, &vec![]));
    assert!(!corset::validate::is_selected(&"a".to_string(), &Some(vec!["b".to_string()]), &vec![]));
    assert!(!corset::validate::is_selected(&"a".to_string(), &None, &vec!["a".to_string()]));
}

#[test]
fn assemble_binds_compiled_program_to_trace() {
    let cs = compile("(defcolumns A B) (= A B) (- A 1)").unwrap();
    let good = set_of(vec![column("m", "A", &[1, 1]), column("m", "B", &[1, 1])]);
    let set = corset::validate::assemble(&cs, &"m".to_string(), good).unwrap();
    assert_eq!(set.constraints.len(), 2);
    assert_eq!(set.constraints[1].name(), "1");
    assert_eq!(check(&set, &None, &vec![]), Ok(()));
    let bad = set_of(vec![column("m", "A", &[1, 2]), column("m", "B", &[1, 1])]);
    let set = corset::validate::assemble(&cs, &"m".to_string(), bad).unwrap();
    assert_eq!(check(&set, &None, &vec![]), Err(vec!["0".to_string(), "1".to_string()]));
    let missing = set_of(vec![column("m", "A", &[1])]);
    assert!(corset::validate::assemble(&cs, &"m".to_string(), missing).is_err());
}

#[test]
fn bind_embeds_negative_constants() {
    let cols = set_of(vec![column("m", "A", &[0])]);
    let e = bind(&Constraint::Const(-2), &"m".to_string(), &cols).unwrap();
    match e {
        Expression::Const(f) => assert!(f.add(&Felt::from_u64(2)).is_zero()),
        _ => panic!("expected a constant"),
    }
    assert!(bind(&Constraint::Column("Q".to_string()), &"m".to_string(), &cols).is_err());
}

#[test]
fn check_sorts_and_deduplicates_names() {
    let columns = set_of(vec![column("m", "A", &[1])]);
    let cs = ConstraintSet {
        constraints: vec![
            corset::validate::Constraint::Vanishes { name: "zeta".to_string(), domain: None, expr: col_ref(&columns, "A") },
            corset::validate::Constraint::Vanishes { name: "alpha".to_string(), domain: None, expr: col_ref(&columns, "A") },
            corset::validate::Constraint::Vanishes { name: "zeta".to_string(), domain: None, expr: col_ref(&columns, "A") },
        ],
        columns,
    };
    assert_eq!(check(&cs, &None, &vec![]), Err(vec!["alpha".to_string(), "zeta".to_string()]));
}

#[test]
fn function_alias_resolves_through_functions() {
    let cs = compile("(defcolumns X Y) (defun f (x y) (- x y)) (defunalias g f) (g X Y)").unwrap();
    match &cs.constraints[0] {
        Constraint::Funcall { func, args } => {
            assert_eq!(*func, Builtin::Sub);
            assert!(is_column(&args[0], "X"));
            assert!(is_column(&args[1], "Y"));
        }
        _ => panic!("expected a call"),
    }
}

#[test]
fn redefinitions_and_unknown_columns_fail() {
    assert!(compile("(defcolumns A A) (= A 0)").is_err());
    assert!(compile("(defcolumns A B) (defalias A B)").is_err());
    assert!(compile("(defcolumns X) (defun f (x) (+ x 1)) (defun f (x) (* x 2))").is_err());
    assert!(compile("(defcolumns X Y) (defun f (x y) (- x y)) (f X)").is_err());
    assert!(compile("(defcolumns A) (= A Z)").is_err());
    let mut t = SymbolsTable::new();
    t.insert_symbol(&"A".to_string()).unwrap();
    assert!(t.insert_alias(&"A".to_string(), &"B".to_string()).is_err());
    assert_eq!(t.resolve_symbol(&"A".to_string()), Ok("A".to_string()));
}

#[test]
fn parse_rejects_unbalanced_and_headless_forms() {
    assert_eq!(parse("(a b").err(), Some(CompileError::Parse));
    assert_eq!(parse("a b)").err(), Some(CompileError::Parse));
    assert_eq!(parse("(() a)").err(), Some(CompileError::Parse));
    assert_eq!(parse("(x 99999999999)").err(), Some(CompileError::Parse));
    assert_eq!(parse("; only a comment\n").unwrap().len(), 0);
}

#[test]
fn both_defun_header_shapes_inline() {
    let a = compile("(defcolumns X Y) (defun (f x y) (- x y)) (f X Y)").unwrap();
    let b = compile("(defcolumns X Y) (defun f (x y) (- x y)) (f X Y)").unwrap();
    for cs in [a, b] {
        match &cs.constraints[0] {
            Constraint::Funcall { func, args } => {
                assert_eq!(*func, Builtin::Sub);
                assert!(is_column(&args[0], "X"));
                assert!(is_column(&args[1], "Y"));
            }
            _ => panic!("expected a call"),
        }
    }
    assert!(compile("(defcolumns X) (defun (f x x) x) (f X X)").is_err());
    assert!(compile("(defcolumns X) (defun (f x)) (f X)").is_err());
    assert!(compile("(defcolumns X) (defalias A X) (defalias A X)").is_err());
}
