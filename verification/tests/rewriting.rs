use abcc::{Constant, Container, Effects, Error, Handle, Handler, Machine, Store, Variable};
use std::rc::Rc;

fn text(s: &str) -> Rc<str> {
    Rc::from(s)
}

fn var(s: &str) -> Variable {
    Variable::read(text(s)).ok().unwrap()
}

/// One step of a program under construction.
enum P {
    Op(Constant),
    Var(&'static str),
    Note(&'static str),
    Quote(Vec<P>),
    Unit,
}

fn step(s: &mut Store, p: &P) -> Handle {
    match p {
        P::Op(c) => s.new_constant(*c).ok().unwrap(),
        P::Var(n) => s.new_variable(var(n)).ok().unwrap(),
        P::Note(b) => s.new_comment(text(b)).ok().unwrap(),
        P::Quote(body) => {
            let b = program(s, body);
            s.new_quote(b).ok().unwrap()
        }
        P::Unit => s.new_identity().ok().unwrap(),
    }
}

/// The steps as one term, nested to the right.
fn program(s: &mut Store, steps: &[P]) -> Handle {
    match steps.len() {
        0 => s.new_identity().ok().unwrap(),
        1 => step(s, &steps[0]),
        _ => {
            let head = step(s, &steps[0]);
            let tail = program(s, &steps[1..]);
            s.new_sequence(head, tail).ok().unwrap()
        }
    }
}

fn name(c: Constant) -> &'static str {
    match c {
        Constant::Apply => "apply",
        Constant::Quote => "quote",
        Constant::Compose => "compose",
        Constant::Copy => "copy",
        Constant::Drop => "drop",
        Constant::Swap => "swap",
        Constant::Shift => "shift",
        Constant::Reset => "reset",
        Constant::Bang => "bang",
    }
}

/// The term of a handle, written out with every sequence in brackets.
fn render(s: &Store, h: Handle) -> String {
    if s.is_identity(h).ok().unwrap() {
        "id".to_string()
    } else if s.is_constant(h).ok().unwrap() {
        name(s.get_constant_name(h).ok().unwrap()).to_string()
    } else if s.is_variable(h).ok().unwrap() {
        format!("${}", s.get_variable_name(h).ok().unwrap().0)
    } else if s.is_comment(h).ok().unwrap() {
        format!("\"{}\"", s.get_comment_body(h).ok().unwrap())
    } else if s.is_quote(h).ok().unwrap() {
        format!("[{}]", render(s, s.get_quote_body(h).ok().unwrap()))
    } else {
        let a = s.get_sequence_fst(h).ok().unwrap();
        let b = s.get_sequence_snd(h).ok().unwrap();
        format!("({} {})", render(s, a), render(s, b))
    }
}

fn store() -> Store {
    Store::new(256, 1000).ok().unwrap()
}

fn normal(steps: &[P]) -> Result<String, Error> {
    let mut s = store();
    let p = program(&mut s, steps);
    match s.normalize(p) {
        Ok(h) => Ok(render(&s, h)),
        Err(e) => Err(e),
    }
}

#[test]
fn identity_on_the_left_changes_nothing() {
    let x = [P::Note("a"), P::Op(Constant::Copy)];
    let with = [P::Unit, P::Note("a"), P::Op(Constant::Copy)];
    assert_eq!(normal(&with), normal(&x));
    assert_eq!(normal(&x), Ok("(\"a\" \"a\")".to_string()));
}

#[test]
fn identity_on_the_right_changes_nothing() {
    let x = [P::Note("a"), P::Op(Constant::Copy)];
    let with = [P::Note("a"), P::Op(Constant::Copy), P::Unit];
    assert_eq!(normal(&with), normal(&x));
}

#[test]
fn identity_alone_is_its_own_normal_form() {
    assert_eq!(normal(&[]), Ok("id".to_string()));
    assert_eq!(normal(&[P::Unit, P::Unit]), Ok("id".to_string()));
}

#[test]
fn apply_runs_the_body_of_a_quotation() {
    let p = [P::Quote(vec![P::Note("a"), P::Note("b"), P::Op(Constant::Swap)]), P::Op(Constant::Apply)];
    assert_eq!(normal(&p), Ok("(\"b\" \"a\")".to_string()));
}

#[test]
fn apply_refuses_what_is_no_quotation() {
    assert_eq!(normal(&[P::Note("a"), P::Op(Constant::Apply)]), Err(Error::Type));
    assert_eq!(normal(&[P::Op(Constant::Apply)]), Err(Error::Type));
}

#[test]
fn quote_wraps_the_value_before_it() {
    assert_eq!(normal(&[P::Note("a"), P::Op(Constant::Quote)]), Ok("[\"a\"]".to_string()));
    assert_eq!(
        normal(&[P::Note("a"), P::Note("b"), P::Op(Constant::Quote)]),
        Ok("(\"a\" [\"b\"])".to_string())
    );
}

#[test]
fn quote_without_a_value_is_a_type_error() {
    assert_eq!(normal(&[P::Op(Constant::Quote)]), Err(Error::Type));
}

#[test]
fn quote_then_apply_gives_the_term_back() {
    let x = [P::Quote(vec![P::Note("p")]), P::Note("v")];
    let xqa = [P::Quote(vec![P::Note("p")]), P::Note("v"), P::Op(Constant::Quote), P::Op(Constant::Apply)];
    assert_eq!(normal(&xqa), normal(&x));
    assert_eq!(normal(&x), Ok("([\"p\"] \"v\")".to_string()));
}

#[test]
fn compose_joins_two_quotations() {
    let p = [P::Quote(vec![P::Note("a")]), P::Quote(vec![P::Note("b")]), P::Op(Constant::Compose)];
    assert_eq!(normal(&p), Ok("[(\"a\" \"b\")]".to_string()));
}

#[test]
fn compose_needs_two_quotations() {
    assert_eq!(normal(&[P::Quote(vec![]), P::Op(Constant::Compose)]), Err(Error::Type));
    assert_eq!(normal(&[P::Quote(vec![]), P::Note("x"), P::Op(Constant::Compose)]), Err(Error::Type));
    assert_eq!(normal(&[P::Note("x"), P::Quote(vec![]), P::Op(Constant::Compose)]), Err(Error::Type));
}

#[test]
fn compose_groups_run_alike() {
    let a = || P::Quote(vec![P::Note("a")]);
    let b = || P::Quote(vec![P::Note("b"), P::Op(Constant::Copy)]);
    let c = || P::Quote(vec![P::Op(Constant::Swap)]);
    let left = [a(), b(), P::Op(Constant::Compose), c(), P::Op(Constant::Compose)];
    let right = [a(), b(), c(), P::Op(Constant::Compose), P::Op(Constant::Compose)];
    assert_eq!(normal(&left), Ok("[((\"a\" (\"b\" copy)) swap)]".to_string()));
    assert_eq!(normal(&right), Ok("[(\"a\" ((\"b\" copy) swap))]".to_string()));
    let left = [a(), b(), P::Op(Constant::Compose), c(), P::Op(Constant::Compose), P::Op(Constant::Apply)];
    let right = [a(), b(), c(), P::Op(Constant::Compose), P::Op(Constant::Compose), P::Op(Constant::Apply)];
    assert_eq!(normal(&left), normal(&right));
    assert_eq!(normal(&left), Ok("((\"a\" \"b\") \"b\")".to_string()));
}

#[test]
fn copy_then_drop_cancel() {
    let x = [P::Note("k"), P::Quote(vec![P::Op(Constant::Bang)])];
    let xcd = [P::Note("k"), P::Quote(vec![P::Op(Constant::Bang)]), P::Op(Constant::Copy), P::Op(Constant::Drop)];
    assert_eq!(normal(&xcd), normal(&x));
    assert_eq!(normal(&x), Ok("(\"k\" [bang])".to_string()));
}

#[test]
fn copy_and_drop_need_a_value() {
    assert_eq!(normal(&[P::Op(Constant::Copy)]), Err(Error::Type));
    assert_eq!(normal(&[P::Op(Constant::Drop)]), Err(Error::Type));
}

#[test]
fn drop_of_the_only_value_leaves_the_identity() {
    assert_eq!(normal(&[P::Note("x"), P::Op(Constant::Drop)]), Ok("id".to_string()));
}

#[test]
fn copy_shares_the_value() {
    let mut s = store();
    let p = program(&mut s, &[P::Quote(vec![P::Note("x")]), P::Op(Constant::Copy)]);
    let out = s.normalize(p).ok().unwrap();
    let a = s.get_sequence_fst(out).ok().unwrap();
    let b = s.get_sequence_snd(out).ok().unwrap();
    assert_eq!(a, b);
}

#[test]
fn swap_twice_changes_nothing() {
    let xy = [P::Note("x"), P::Note("y")];
    let xyss = [P::Note("x"), P::Note("y"), P::Op(Constant::Swap), P::Op(Constant::Swap)];
    assert_eq!(normal(&xyss), normal(&xy));
    assert_eq!(normal(&xy), Ok("(\"x\" \"y\")".to_string()));
}

#[test]
fn swap_needs_two_values() {
    assert_eq!(normal(&[P::Note("x"), P::Op(Constant::Swap)]), Err(Error::Type));
    assert_eq!(normal(&[P::Op(Constant::Swap)]), Err(Error::Type));
}

#[test]
fn three_values_nest_to_the_left() {
    assert_eq!(
        normal(&[P::Note("a"), P::Note("b"), P::Note("c")]),
        Ok("((\"a\" \"b\") \"c\")".to_string())
    );
}

#[test]
fn shift_hands_the_rest_up_to_reset_to_its_body() {
    let p = [
        P::Quote(vec![P::Op(Constant::Apply)]),
        P::Op(Constant::Shift),
        P::Note("k1"),
        P::Note("k2"),
        P::Op(Constant::Reset),
        P::Note("after"),
    ];
    assert_eq!(normal(&p), Ok("((\"k1\" \"k2\") \"after\")".to_string()));
}

#[test]
fn shift_can_drop_the_captured_rest() {
    let p = [P::Quote(vec![P::Op(Constant::Drop)]), P::Op(Constant::Shift), P::Note("x"), P::Op(Constant::Reset), P::Note("y")];
    assert_eq!(normal(&p), Ok("\"y\"".to_string()));
}

#[test]
fn shift_quotes_the_captured_rest() {
    let p = [P::Quote(vec![]), P::Op(Constant::Shift), P::Note("x"), P::Op(Constant::Copy), P::Op(Constant::Reset)];
    assert_eq!(normal(&p), Ok("[(\"x\" copy)]".to_string()));
    let p = [P::Quote(vec![]), P::Op(Constant::Shift), P::Op(Constant::Reset)];
    assert_eq!(normal(&p), Ok("[id]".to_string()));
}

#[test]
fn shift_without_reset_is_a_type_error() {
    let p = [P::Quote(vec![]), P::Op(Constant::Shift), P::Note("x")];
    assert_eq!(normal(&p), Err(Error::Type));
    let p = [P::Quote(vec![]), P::Op(Constant::Shift), P::Quote(vec![P::Op(Constant::Reset)])];
    assert_eq!(normal(&p), Err(Error::Type));
}

#[test]
fn shift_needs_a_quotation() {
    assert_eq!(normal(&[P::Note("x"), P::Op(Constant::Shift), P::Op(Constant::Reset)]), Err(Error::Type));
    assert_eq!(normal(&[P::Op(Constant::Shift), P::Op(Constant::Reset)]), Err(Error::Type));
}

#[test]
fn reset_alone_leaves_nothing() {
    assert_eq!(normal(&[P::Note("v"), P::Op(Constant::Reset)]), Ok("\"v\"".to_string()));
}

#[test]
fn a_bang_leaves_the_rest_as_it_is() {
    let p = [P::Note("a"), P::Op(Constant::Copy), P::Op(Constant::Bang), P::Op(Constant::Drop), P::Unit, P::Op(Constant::Swap)];
    assert_eq!(normal(&p), Ok("((((\"a\" \"a\") bang) drop) swap)".to_string()));
}

#[test]
fn a_variable_leaves_the_rest_as_it_is() {
    let p = [P::Note("a"), P::Var("v"), P::Op(Constant::Drop)];
    assert_eq!(normal(&p), Ok("((\"a\" $v) drop)".to_string()));
}

#[test]
fn a_comment_is_kept_as_it_is() {
    assert_eq!(normal(&[P::Note("remark")]), Ok("\"remark\"".to_string()));
    let p = [P::Quote(vec![P::Note("inside"), P::Op(Constant::Copy)])];
    assert_eq!(normal(&p), Ok("[(\"inside\" copy)]".to_string()));
}

#[test]
fn the_quota_counts_rule_applications() {
    // copy, swap, drop: three rule applications
    let steps = || [P::Note("a"), P::Op(Constant::Copy), P::Op(Constant::Swap), P::Op(Constant::Drop), P::Unit];
    for (quota, expected) in
        [(0, Err(Error::Time)), (2, Err(Error::Time)), (3, Ok(())), (4, Ok(())), (1000, Ok(()))]
    {
        let mut s = Store::new(64, quota).ok().unwrap();
        let p = program(&mut s, &steps());
        let r = s.normalize(p);
        match expected {
            Ok(()) => assert_eq!(render(&s, r.ok().unwrap()), "\"a\""),
            Err(e) => assert_eq!(r, Err(e)),
        }
    }
}

#[test]
fn a_normal_form_costs_no_effort() {
    let mut s = Store::new(64, 0).ok().unwrap();
    let p = program(&mut s, &[P::Note("a"), P::Quote(vec![P::Op(Constant::Copy)]), P::Op(Constant::Bang)]);
    let out = s.normalize(p).ok().unwrap();
    assert_eq!(render(&s, out), "((\"a\" [copy]) bang)");
}

#[test]
fn a_type_error_comes_before_a_time_error() {
    let mut s = Store::new(64, 0).ok().unwrap();
    let p = program(&mut s, &[P::Op(Constant::Copy)]);
    assert_eq!(s.normalize(p), Err(Error::Type));
    let p = program(&mut s, &[P::Note("a"), P::Op(Constant::Copy)]);
    assert_eq!(s.normalize(p), Err(Error::Time));
}

#[test]
fn set_quota_changes_the_effort_of_later_evaluations() {
    let mut s = Store::new(64, 0).ok().unwrap();
    let p = program(&mut s, &[P::Note("a"), P::Op(Constant::Copy)]);
    assert_eq!(s.quota(), 0);
    assert_eq!(s.normalize(p), Err(Error::Time));
    s.set_quota(1);
    assert_eq!(s.quota(), 1);
    let out = s.normalize(p).ok().unwrap();
    assert_eq!(render(&s, out), "(\"a\" \"a\")");
}

#[test]
fn quote_takes_one_place_and_joining_one_for_each_further_step() {
    let mut s = Store::new(6, 10).ok().unwrap();
    // the unit, two comments, quote, and two sequences: the store is full
    let p = program(&mut s, &[P::Note("a"), P::Note("b"), P::Op(Constant::Quote)]);
    assert_eq!(s.room(), 0);
    assert_eq!(s.normalize(p), Err(Error::Space));

    let mut s = Store::new(7, 10).ok().unwrap();
    let p = program(&mut s, &[P::Note("a"), P::Note("b"), P::Op(Constant::Quote)]);
    assert_eq!(s.room(), 1);
    // the quotation fits, the sequence that joins the two results does not
    assert_eq!(s.normalize(p), Err(Error::Space));
    assert_eq!(s.room(), 1);

    let mut s = Store::new(8, 10).ok().unwrap();
    let p = program(&mut s, &[P::Note("a"), P::Note("b"), P::Op(Constant::Quote)]);
    assert_eq!(s.room(), 2);
    let out = s.normalize(p).ok().unwrap();
    assert_eq!(render(&s, out), "(\"a\" [\"b\"])");
    assert_eq!(s.room(), 0);
}

#[test]
fn compose_takes_two_places() {
    let mut s = Store::new(32, 10).ok().unwrap();
    let p = program(&mut s, &[P::Quote(vec![]), P::Quote(vec![]), P::Op(Constant::Compose)]);
    let before = s.room();
    let out = s.normalize(p).ok().unwrap();
    assert_eq!(render(&s, out), "[(id id)]");
    assert_eq!(before - s.room(), 2);
}

#[test]
fn normalize_refuses_a_handle_that_the_store_does_not_hold() {
    let mut s = store();
    let mut other = store();
    for _ in 0..5 {
        other.new_constant(Constant::Copy).ok().unwrap();
    }
    let far = other.new_constant(Constant::Copy).ok().unwrap();
    assert_eq!(s.normalize(far), Err(Error::Type));
    assert_eq!(s.complete(far), Err(Error::Type));
}

struct Script {
    answers: Vec<Result<Vec<P>, Error>>,
    seen: Vec<Vec<String>>,
}

impl Handler<Store> for Script {
    fn execute(&mut self, args: Vec<Handle>, ctx: &mut Store) -> Result<Vec<Handle>, Error> {
        self.seen.push(args.iter().map(|a| render(ctx, *a)).collect());
        match self.answers.remove(0) {
            Ok(ps) => Ok(ps.iter().map(|p| step(ctx, p)).collect()),
            Err(e) => Err(e),
        }
    }
}

fn effect(steps: &[P], answers: Vec<Result<Vec<P>, Error>>) -> (Result<String, Error>, Vec<Vec<String>>) {
    let mut s = store();
    let p = program(&mut s, steps);
    let mut h = Script { answers, seen: Vec::new() };
    let r = match s.execute(p, &mut h) {
        Ok(o) => Ok(render(&s, o)),
        Err(e) => Err(e),
    };
    (r, h.seen)
}

#[test]
fn execute_without_a_bang_is_normalize() {
    let p = [P::Note("a"), P::Op(Constant::Copy), P::Op(Constant::Swap)];
    let (r, seen) = effect(&p, vec![]);
    assert_eq!(r, normal(&p));
    assert!(seen.is_empty());
}

#[test]
fn the_handler_is_given_the_values_before_the_bang() {
    let p = [P::Note("a"), P::Note("b"), P::Op(Constant::Swap), P::Op(Constant::Bang), P::Note("z")];
    let (r, seen) = effect(&p, vec![Ok(vec![P::Note("r")])]);
    assert_eq!(seen, vec![vec!["\"b\"".to_string(), "\"a\"".to_string()]]);
    assert_eq!(r, Ok("(\"r\" \"z\")".to_string()));
}

#[test]
fn the_answer_of_a_handler_runs_next() {
    let p = [P::Op(Constant::Bang), P::Op(Constant::Copy)];
    let (r, seen) = effect(&p, vec![Ok(vec![P::Note("x"), P::Note("y"), P::Op(Constant::Swap)])]);
    assert_eq!(seen, vec![Vec::<String>::new()]);
    assert_eq!(r, Ok("((\"y\" \"x\") \"x\")".to_string()));
}

#[test]
fn an_empty_answer_removes_the_operands_and_the_bang() {
    let (r, _) = effect(&[P::Note("gone"), P::Op(Constant::Bang)], vec![Ok(vec![])]);
    assert_eq!(r, Ok("id".to_string()));
}

#[test]
fn every_bang_calls_the_handler_in_turn() {
    let p = [P::Note("a"), P::Op(Constant::Bang), P::Op(Constant::Bang)];
    let (r, seen) = effect(&p, vec![Ok(vec![P::Note("b")]), Ok(vec![P::Note("c")])]);
    assert_eq!(seen, vec![vec!["\"a\"".to_string()], vec!["\"b\"".to_string()]]);
    assert_eq!(r, Ok("\"c\"".to_string()));
}

#[test]
fn the_error_of_a_handler_is_the_error_of_execute() {
    for e in [Error::Assert, Error::Stub, Error::Bug, Error::Syntax, Error::Space] {
        let (r, _) = effect(&[P::Op(Constant::Bang)], vec![Err(e)]);
        assert_eq!(r, Err(e));
    }
}

#[test]
fn a_failure_before_the_first_bang_changes_nothing() {
    let mut s = Store::new(16, 10).ok().unwrap();
    let p = program(&mut s, &[P::Note("a"), P::Op(Constant::Quote), P::Op(Constant::Apply), P::Op(Constant::Apply), P::Op(Constant::Bang)]);
    let room = s.room();
    let mut h = Script { answers: vec![], seen: Vec::new() };
    assert_eq!(s.execute(p, &mut h), Err(Error::Type));
    assert_eq!(s.room(), room);
    assert!(h.seen.is_empty());
}

#[test]
fn a_bang_takes_one_rule_application() {
    let mut s = Store::new(64, 0).ok().unwrap();
    let p = program(&mut s, &[P::Op(Constant::Bang)]);
    let mut h = Script { answers: vec![Ok(vec![])], seen: Vec::new() };
    assert_eq!(s.execute(p, &mut h), Err(Error::Time));
    assert!(h.seen.is_empty());
    s.set_quota(1);
    let out = s.execute(p, &mut h).ok().unwrap();
    assert_eq!(render(&s, out), "id");
}

#[test]
fn execute_stops_at_a_variable_before_a_bang() {
    let p = [P::Var("v"), P::Op(Constant::Bang)];
    let (r, seen) = effect(&p, vec![]);
    assert!(seen.is_empty());
    assert_eq!(r, Ok("($v bang)".to_string()));
}

#[test]
fn an_answer_with_a_bang_calls_the_handler_again() {
    let p = [P::Op(Constant::Bang)];
    let (r, seen) = effect(&p, vec![Ok(vec![P::Note("n"), P::Op(Constant::Bang)]), Ok(vec![P::Note("m")])]);
    assert_eq!(seen, vec![Vec::<String>::new(), vec!["\"n\"".to_string()]]);
    assert_eq!(r, Ok("\"m\"".to_string()));
}

struct Reenter;

impl Handler<Store> for Reenter {
    fn execute(&mut self, args: Vec<Handle>, ctx: &mut Store) -> Result<Vec<Handle>, Error> {
        let copy = ctx.new_constant(Constant::Copy)?;
        let p = ctx.new_sequence(args[0], copy)?;
        let r = ctx.normalize(p)?;
        Ok(vec![r])
    }
}

#[test]
fn a_handler_may_normalize_in_the_store() {
    let mut s = store();
    let p = program(&mut s, &[P::Note("a"), P::Op(Constant::Bang), P::Op(Constant::Swap)]);
    let out = s.execute(p, &mut Reenter).ok().unwrap();
    assert_eq!(render(&s, out), "(\"a\" \"a\")");
}

struct Stray {
    far: Handle,
}

impl Handler<Store> for Stray {
    fn execute(&mut self, _args: Vec<Handle>, _ctx: &mut Store) -> Result<Vec<Handle>, Error> {
        Ok(vec![self.far])
    }
}

#[test]
fn an_answer_that_the_store_does_not_hold_is_a_type_error() {
    let mut other = Store::new(300, 0).ok().unwrap();
    let mut far = other.new_identity().ok().unwrap();
    for _ in 0..290 {
        far = other.new_constant(Constant::Copy).ok().unwrap();
    }
    let mut s = store();
    let p = program(&mut s, &[P::Op(Constant::Bang)]);
    assert_eq!(s.execute(p, &mut Stray { far }), Err(Error::Type));
}

#[test]
fn a_machine_can_be_driven_by_hand() {
    let mut s = store();
    let p = program(&mut s, &[P::Note("a"), P::Op(Constant::Bang), P::Op(Constant::Copy)]);
    let a = s.get_sequence_fst(p).ok().unwrap();
    let mut m: Machine = s.load(p).ok().unwrap();
    assert!(!m.is_idle());
    assert!(!m.is_spent());
    assert_eq!(s.advance(&mut m, true), Ok(()));
    // the machine waits at the bang
    assert!(!m.is_idle());
    assert_eq!(m.operands(), vec![a]);
    let b = s.new_comment(text("b")).ok().unwrap();
    assert_eq!(s.answer(&mut m, vec![b]), Ok(()));
    assert_eq!(s.advance(&mut m, true), Ok(()));
    assert!(m.is_idle());
    let out = s.conclude(m).ok().unwrap();
    assert_eq!(render(&s, out), "(\"b\" \"b\")");
}

#[test]
fn a_machine_without_effort_refuses_an_answer() {
    let mut s = Store::new(16, 0).ok().unwrap();
    let p = program(&mut s, &[P::Op(Constant::Bang)]);
    let mut m = s.load(p).ok().unwrap();
    assert!(m.is_spent());
    assert_eq!(s.advance(&mut m, true), Ok(()));
    assert_eq!(s.answer(&mut m, vec![]), Err(Error::Time));
    assert!(!m.is_idle());
    assert!(matches!(s.load(stranger_of(&s)), Err(Error::Type)));
}

/// A handle that the store does not hold.
fn stranger_of(s: &Store) -> Handle {
    let mut other = Store::new(s.capacity() + 8, 0).ok().unwrap();
    let mut far = other.new_identity().ok().unwrap();
    for _ in 0..s.capacity() + 2 {
        far = other.new_constant(Constant::Copy).ok().unwrap();
    }
    far
}

#[test]
fn without_effects_a_machine_runs_past_a_bang() {
    let mut s = store();
    let p = program(&mut s, &[P::Note("a"), P::Op(Constant::Bang), P::Op(Constant::Copy)]);
    let mut m = s.load(p).ok().unwrap();
    assert_eq!(s.advance(&mut m, false), Ok(()));
    assert!(m.is_idle());
    let out = s.conclude(m).ok().unwrap();
    assert_eq!(render(&s, out), "((\"a\" bang) copy)");
}
