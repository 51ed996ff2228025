use abcc::{Constant, Container, Effects, Error, Handle, Handler, Store, Variable};
use std::rc::Rc;

fn text(s: &str) -> Rc<str> {
    Rc::from(s)
}

fn var(s: &str) -> Variable {
    Variable::read(text(s)).ok().unwrap()
}

struct Fixed {
    answer: Handle,
    seen: Vec<Vec<Handle>>,
}

impl Handler<Store> for Fixed {
    fn execute(&mut self, args: Vec<Handle>, _ctx: &mut Store) -> Result<Vec<Handle>, Error> {
        self.seen.push(args);
        Ok(vec![self.answer])
    }
}

#[test]
fn complete_then_normalize_swaps_the_bound_comments() {
    let mut s = Store::new(64, 100).ok().unwrap();
    let swap = s.new_constant(Constant::Swap).ok().unwrap();
    let a = s.new_variable(var("a")).ok().unwrap();
    let b = s.new_variable(var("b")).ok().unwrap();
    let inner = s.new_sequence(b, swap).ok().unwrap();
    let prog = s.new_sequence(a, inner).ok().unwrap();
    let x = s.new_comment(text("x")).ok().unwrap();
    let y = s.new_comment(text("y")).ok().unwrap();
    assert_eq!(s.put(var("a"), x).ok().unwrap(), None);
    assert_eq!(s.put(var("b"), y).ok().unwrap(), None);
    let full = s.complete(prog).ok().unwrap();
    let out = s.normalize(full).ok().unwrap();
    assert_eq!(s.is_sequence(out).ok().unwrap(), true);
    let fst = s.get_sequence_fst(out).ok().unwrap();
    let snd = s.get_sequence_snd(out).ok().unwrap();
    assert_eq!(&*s.get_comment_body(fst).ok().unwrap(), "y");
    assert_eq!(&*s.get_comment_body(snd).ok().unwrap(), "x");
}

#[test]
fn execute_splices_the_answer_and_normalize_leaves_the_bang() {
    let mut s = Store::new(64, 100).ok().unwrap();
    let arg = s.new_comment(text("arg")).ok().unwrap();
    let bang = s.new_constant(Constant::Bang).ok().unwrap();
    let prog = s.new_sequence(arg, bang).ok().unwrap();
    let fixed = s.new_comment(text("done")).ok().unwrap();

    let plain = s.normalize(prog).ok().unwrap();
    assert_eq!(s.is_sequence(plain).ok().unwrap(), true);
    let fst = s.get_sequence_fst(plain).ok().unwrap();
    let snd = s.get_sequence_snd(plain).ok().unwrap();
    assert_eq!(&*s.get_comment_body(fst).ok().unwrap(), "arg");
    assert_eq!(s.is_bang(snd).ok().unwrap(), true);

    let mut h = Fixed { answer: fixed, seen: Vec::new() };
    let out = s.execute(prog, &mut h).ok().unwrap();
    assert_eq!(h.seen, vec![vec![arg]]);
    assert_eq!(s.is_comment(out).ok().unwrap(), true);
    assert_eq!(&*s.get_comment_body(out).ok().unwrap(), "done");
    assert_eq!(s.has_bang(out).ok().unwrap(), false);
}
