use abcc::{Constant, Container, Error, Handle, Store, Variable};
use std::rc::Rc;

fn text(s: &str) -> Rc<str> {
    Rc::from(s)
}

fn var(s: &str) -> Variable {
    Variable::read(text(s)).ok().unwrap()
}

fn store() -> Store {
    Store::new(64, 100).ok().unwrap()
}

/// A handle that a fresh store of the same size does not hold.
fn stranger() -> Handle {
    let mut other = store();
    for _ in 0..40 {
        other.new_constant(Constant::Copy).ok().unwrap();
    }
    other.new_constant(Constant::Copy).ok().unwrap()
}

#[test]
fn read_accepts_every_name() {
    for n in ["x", "", "two words", "copy", "[", "\u{e9}t\u{e9}"] {
        let v = Variable::read(text(n)).ok().unwrap();
        assert_eq!(&*v.0, n);
    }
}

#[test]
fn a_store_without_capacity_cannot_be_made() {
    assert!(matches!(Store::new(0, 10), Err(Error::Space)));
}

#[test]
fn a_new_store_holds_the_identity_only() {
    let s = Store::new(5, 7).ok().unwrap();
    assert_eq!(s.capacity(), 5);
    assert_eq!(s.quota(), 7);
    assert_eq!(s.room(), 4);
    let u = s.new_identity().ok().unwrap();
    assert_eq!(s.is_identity(u), Ok(true));
    assert_eq!(s.new_identity(), Ok(u));
    assert_eq!(s.room(), 4);
}

#[test]
fn each_constructor_takes_one_place() {
    let mut s = Store::new(7, 0).ok().unwrap();
    let c = s.new_constant(Constant::Swap).ok().unwrap();
    assert_eq!(s.room(), 5);
    let v = s.new_variable(var("v")).ok().unwrap();
    assert_eq!(s.room(), 4);
    let n = s.new_comment(text("n")).ok().unwrap();
    assert_eq!(s.room(), 3);
    let q = s.new_quote(c).ok().unwrap();
    assert_eq!(s.room(), 2);
    let p = s.new_sequence(v, n).ok().unwrap();
    assert_eq!(s.room(), 1);
    let all = [c, v, n, q, p];
    for i in 0..all.len() {
        for j in 0..i {
            assert_ne!(all[i], all[j]);
        }
    }
    let last = s.new_comment(text("last")).ok().unwrap();
    assert_eq!(s.room(), 0);
    assert_eq!(s.new_constant(Constant::Copy), Err(Error::Space));
    assert_eq!(s.new_variable(var("w")), Err(Error::Space));
    assert_eq!(s.new_comment(text("m")), Err(Error::Space));
    assert_eq!(s.new_quote(last), Err(Error::Space));
    assert_eq!(s.new_sequence(last, last), Err(Error::Space));
    assert_eq!(s.is_comment(last), Ok(true));
}

#[test]
fn constructors_refuse_parts_that_the_store_does_not_hold() {
    let mut s = store();
    let far = stranger();
    let near = s.new_constant(Constant::Copy).ok().unwrap();
    let room = s.room();
    assert_eq!(s.new_quote(far), Err(Error::Type));
    assert_eq!(s.new_sequence(far, near), Err(Error::Type));
    assert_eq!(s.new_sequence(near, far), Err(Error::Type));
    assert_eq!(s.room(), room);
}

#[test]
fn shape_predicates_tell_the_variants_apart() {
    let mut s = store();
    let id = s.new_identity().ok().unwrap();
    let copy = s.new_constant(Constant::Copy).ok().unwrap();
    let shift = s.new_constant(Constant::Shift).ok().unwrap();
    let reset = s.new_constant(Constant::Reset).ok().unwrap();
    let bang = s.new_constant(Constant::Bang).ok().unwrap();
    let v = s.new_variable(var("v")).ok().unwrap();
    let n = s.new_comment(text("n")).ok().unwrap();
    let q = s.new_quote(v).ok().unwrap();
    let p = s.new_sequence(n, bang).ok().unwrap();
    //            identity constant variable comment quote sequence prompt bang
    let rows = [
        (id, [true, false, false, false, false, false, false, false]),
        (copy, [false, true, false, false, false, false, false, false]),
        (shift, [false, true, false, false, false, false, true, false]),
        (reset, [false, true, false, false, false, false, true, false]),
        (bang, [false, true, false, false, false, false, false, true]),
        (v, [false, false, true, false, false, false, false, false]),
        (n, [false, false, false, true, false, false, false, false]),
        (q, [false, false, false, false, true, false, false, false]),
        (p, [false, false, false, false, false, true, false, false]),
    ];
    for (h, row) in rows {
        let got = [
            s.is_identity(h).ok().unwrap(),
            s.is_constant(h).ok().unwrap(),
            s.is_variable(h).ok().unwrap(),
            s.is_comment(h).ok().unwrap(),
            s.is_quote(h).ok().unwrap(),
            s.is_sequence(h).ok().unwrap(),
            s.is_prompt(h).ok().unwrap(),
            s.is_bang(h).ok().unwrap(),
        ];
        assert_eq!(got, row);
    }
}

#[test]
fn deep_predicates_look_below_and_at_the_term_itself() {
    let mut s = store();
    let shift = s.new_constant(Constant::Shift).ok().unwrap();
    let bang = s.new_constant(Constant::Bang).ok().unwrap();
    let v = s.new_variable(var("v")).ok().unwrap();
    let n = s.new_comment(text("n")).ok().unwrap();
    let qv = s.new_quote(v).ok().unwrap();
    let inner = s.new_sequence(qv, n).ok().unwrap();
    let outer = s.new_quote(inner).ok().unwrap();
    assert_eq!(s.has_variable(outer), Ok(true));
    assert_eq!(s.has_comment(outer), Ok(true));
    assert_eq!(s.has_quote(outer), Ok(true));
    assert_eq!(s.has_constant(outer), Ok(false));
    assert_eq!(s.has_prompt(outer), Ok(false));
    assert_eq!(s.has_bang(outer), Ok(false));
    assert_eq!(s.has_variable(v), Ok(true));
    assert_eq!(s.has_variable(n), Ok(false));
    assert_eq!(s.has_quote(n), Ok(false));
    let p = s.new_sequence(outer, shift).ok().unwrap();
    assert_eq!(s.has_prompt(p), Ok(true));
    assert_eq!(s.has_constant(p), Ok(true));
    assert_eq!(s.has_bang(p), Ok(false));
    let p = s.new_sequence(bang, p).ok().unwrap();
    assert_eq!(s.has_bang(p), Ok(true));
    assert_eq!(s.has_bang(bang), Ok(true));
    assert_eq!(s.has_constant(bang), Ok(true));
    assert_eq!(s.has_prompt(bang), Ok(false));
}

#[test]
fn predicates_refuse_a_handle_that_the_store_does_not_hold() {
    let s = store();
    let far = stranger();
    assert_eq!(s.is_identity(far), Err(Error::Type));
    assert_eq!(s.is_constant(far), Err(Error::Type));
    assert_eq!(s.is_variable(far), Err(Error::Type));
    assert_eq!(s.is_comment(far), Err(Error::Type));
    assert_eq!(s.is_quote(far), Err(Error::Type));
    assert_eq!(s.is_sequence(far), Err(Error::Type));
    assert_eq!(s.is_prompt(far), Err(Error::Type));
    assert_eq!(s.is_bang(far), Err(Error::Type));
    assert_eq!(s.has_constant(far), Err(Error::Type));
    assert_eq!(s.has_variable(far), Err(Error::Type));
    assert_eq!(s.has_comment(far), Err(Error::Type));
    assert_eq!(s.has_quote(far), Err(Error::Type));
    assert_eq!(s.has_prompt(far), Err(Error::Type));
    assert_eq!(s.has_bang(far), Err(Error::Type));
}

#[test]
fn accessors_read_the_right_variant_only() {
    let mut s = store();
    let c = s.new_constant(Constant::Compose).ok().unwrap();
    let v = s.new_variable(var("name")).ok().unwrap();
    let n = s.new_comment(text("body")).ok().unwrap();
    let q = s.new_quote(c).ok().unwrap();
    let p = s.new_sequence(v, n).ok().unwrap();
    assert_eq!(s.get_constant_name(c), Ok(Constant::Compose));
    assert_eq!(&*s.get_variable_name(v).ok().unwrap().0, "name");
    assert_eq!(&*s.get_comment_body(n).ok().unwrap(), "body");
    assert_eq!(s.get_quote_body(q), Ok(c));
    assert_eq!(s.get_sequence_fst(p), Ok(v));
    assert_eq!(s.get_sequence_snd(p), Ok(n));
    let far = stranger();
    for h in [v, n, q, p, far] {
        assert_eq!(s.get_constant_name(h), Err(Error::Type));
    }
    for h in [c, n, q, p, far] {
        assert!(matches!(s.get_variable_name(h), Err(Error::Type)));
    }
    for h in [c, v, q, p, far] {
        assert_eq!(s.get_comment_body(h), Err(Error::Type));
    }
    for h in [c, v, n, p, far] {
        assert_eq!(s.get_quote_body(h), Err(Error::Type));
    }
    for h in [c, v, n, q, far] {
        assert_eq!(s.get_sequence_fst(h), Err(Error::Type));
        assert_eq!(s.get_sequence_snd(h), Err(Error::Type));
    }
}

#[test]
fn put_twice_returns_the_first_value_and_get_yields_the_second() {
    let mut s = store();
    let v1 = s.new_comment(text("one")).ok().unwrap();
    let v2 = s.new_comment(text("two")).ok().unwrap();
    assert_eq!(s.get(var("k")), Ok(None));
    assert_eq!(s.put(var("k"), v1), Ok(None));
    assert_eq!(s.get(var("k")), Ok(Some(v1)));
    assert_eq!(s.put(var("k"), v2), Ok(Some(v1)));
    assert_eq!(s.get(var("k")), Ok(Some(v2)));
}

#[test]
fn names_are_compared_by_their_characters() {
    let mut s = store();
    let v1 = s.new_comment(text("one")).ok().unwrap();
    let v2 = s.new_comment(text("two")).ok().unwrap();
    assert_eq!(s.put(var("ab"), v1), Ok(None));
    assert_eq!(s.put(var("a"), v2), Ok(None));
    let same = Variable::read(Rc::from(String::from("a") + "b")).ok().unwrap();
    assert_eq!(s.get(same), Ok(Some(v1)));
    assert_eq!(s.get(var("a")), Ok(Some(v2)));
    assert_eq!(s.get(var("b")), Ok(None));
    assert_eq!(s.get(var("")), Ok(None));
}

#[test]
fn put_refuses_a_handle_that_the_store_does_not_hold() {
    let mut s = store();
    assert_eq!(s.put(var("k"), stranger()), Err(Error::Type));
    assert_eq!(s.get(var("k")), Ok(None));
}

#[test]
fn delete_returns_the_value_and_fails_on_a_name_that_is_not_bound() {
    let mut s = store();
    let v1 = s.new_comment(text("one")).ok().unwrap();
    let v2 = s.new_comment(text("two")).ok().unwrap();
    let v3 = s.new_comment(text("three")).ok().unwrap();
    assert_eq!(s.delete(var("a")), Err(Error::Type));
    s.put(var("a"), v1).ok().unwrap();
    s.put(var("b"), v2).ok().unwrap();
    s.put(var("c"), v3).ok().unwrap();
    assert_eq!(s.delete(var("b")), Ok(v2));
    assert_eq!(s.delete(var("b")), Err(Error::Type));
    assert_eq!(s.get(var("a")), Ok(Some(v1)));
    assert_eq!(s.get(var("b")), Ok(None));
    assert_eq!(s.get(var("c")), Ok(Some(v3)));
    assert_eq!(s.delete(var("a")), Ok(v1));
    assert_eq!(s.delete(var("c")), Ok(v3));
    assert_eq!(s.get(var("c")), Ok(None));
}

#[test]
fn the_accessors_give_the_name_and_the_body_of_the_term_asked_for() {
    let mut s = store();
    let a = s.new_variable(var("first")).ok().unwrap();
    let b = s.new_variable(var("second")).ok().unwrap();
    let m = s.new_comment(text("m")).ok().unwrap();
    let n = s.new_comment(text("n")).ok().unwrap();
    assert_eq!(&*s.get_variable_name(a).ok().unwrap().0, "first");
    assert_eq!(&*s.get_variable_name(b).ok().unwrap().0, "second");
    assert_eq!(&*s.get_comment_body(m).ok().unwrap(), "m");
    assert_eq!(&*s.get_comment_body(n).ok().unwrap(), "n");
}

#[test]
fn complete_replaces_bound_variables_and_keeps_the_others() {
    let mut s = store();
    let a = s.new_variable(var("a")).ok().unwrap();
    let b = s.new_variable(var("b")).ok().unwrap();
    let qa = s.new_quote(a).ok().unwrap();
    let p = s.new_sequence(qa, b).ok().unwrap();
    let x = s.new_comment(text("x")).ok().unwrap();
    s.put(var("a"), x).ok().unwrap();
    let room = s.room();
    let out = s.complete(p).ok().unwrap();
    // a new quotation and a new sequence
    assert_eq!(room - s.room(), 2);
    let fst = s.get_sequence_fst(out).ok().unwrap();
    let snd = s.get_sequence_snd(out).ok().unwrap();
    assert_eq!(s.get_quote_body(fst), Ok(x));
    assert_eq!(snd, b);
    assert_eq!(s.has_variable(out), Ok(true));
    // the term given is as it was
    assert_eq!(s.get_sequence_fst(p), Ok(qa));
    assert_eq!(s.get_quote_body(qa), Ok(a));
}

#[test]
fn complete_of_a_term_without_bound_variables_is_the_term() {
    let mut s = store();
    let a = s.new_variable(var("a")).ok().unwrap();
    let c = s.new_constant(Constant::Copy).ok().unwrap();
    let p = s.new_sequence(a, c).ok().unwrap();
    let room = s.room();
    assert_eq!(s.complete(p), Ok(p));
    assert_eq!(s.room(), room);
}

#[test]
fn complete_of_a_bound_variable_is_what_it_is_bound_to() {
    let mut s = store();
    let a = s.new_variable(var("a")).ok().unwrap();
    let again = s.new_variable(var("a")).ok().unwrap();
    s.put(var("a"), again).ok().unwrap();
    // what takes the place of a variable is not completed again
    assert_eq!(s.complete(a), Ok(again));
}

#[test]
fn complete_fails_where_the_new_terms_find_no_room() {
    let mut s = Store::new(6, 0).ok().unwrap();
    let a = s.new_variable(var("a")).ok().unwrap();
    let qa = s.new_quote(a).ok().unwrap();
    let qqa = s.new_quote(qa).ok().unwrap();
    let x = s.new_comment(text("x")).ok().unwrap();
    s.put(var("a"), x).ok().unwrap();
    assert_eq!(s.room(), 1);
    // two quotations would be needed; the one that fits is given up again
    assert_eq!(s.complete(qqa), Err(Error::Space));
    assert_eq!(s.room(), 1);
    assert_eq!(s.get_quote_body(qqa), Ok(qa));
    let out = s.complete(qa).ok().unwrap();
    assert_eq!(s.get_quote_body(out), Ok(x));
    assert_eq!(s.room(), 0);
}

#[test]
fn collect_keeps_what_the_roots_reach_and_nothing_else() {
    let mut s = store();
    let a = s.new_comment(text("a")).ok().unwrap();
    let b = s.new_comment(text("b")).ok().unwrap();
    let qa = s.new_quote(a).ok().unwrap();
    let p = s.new_sequence(qa, a).ok().unwrap();
    let lost = s.new_sequence(b, p).ok().unwrap();
    let room = s.room();
    assert_eq!(s.collect(vec![p]), Ok(()));
    assert_eq!(s.room(), room + 2);
    assert_eq!(s.is_sequence(p), Ok(true));
    assert_eq!(s.get_sequence_fst(p), Ok(qa));
    assert_eq!(s.get_quote_body(qa), Ok(a));
    assert_eq!(&*s.get_comment_body(a).ok().unwrap(), "a");
    assert_eq!(s.is_comment(b), Err(Error::Type));
    assert_eq!(s.is_sequence(lost), Err(Error::Type));
    assert_eq!(s.get_sequence_fst(lost), Err(Error::Type));
}

#[test]
fn collect_without_roots_keeps_the_environment_and_the_identity() {
    let mut s = store();
    let a = s.new_comment(text("a")).ok().unwrap();
    let qa = s.new_quote(a).ok().unwrap();
    let b = s.new_comment(text("b")).ok().unwrap();
    s.put(var("k"), qa).ok().unwrap();
    assert_eq!(s.collect(vec![]), Ok(()));
    assert_eq!(s.get(var("k")), Ok(Some(qa)));
    assert_eq!(s.get_quote_body(qa), Ok(a));
    assert_eq!(s.is_comment(a), Ok(true));
    assert_eq!(s.is_comment(b), Err(Error::Type));
    let u = s.new_identity().ok().unwrap();
    assert_eq!(s.is_identity(u), Ok(true));
    assert_eq!(s.room(), 64 - 3);
}

#[test]
fn a_binding_must_be_deleted_before_its_term_can_go() {
    let mut s = store();
    let a = s.new_comment(text("a")).ok().unwrap();
    let b = s.new_comment(text("b")).ok().unwrap();
    s.put(var("k"), a).ok().unwrap();
    s.put(var("k"), b).ok().unwrap();
    s.collect(vec![]).ok().unwrap();
    // the evicted value is gone, the bound one stays
    assert_eq!(s.is_comment(a), Err(Error::Type));
    assert_eq!(s.is_comment(b), Ok(true));
    assert_eq!(s.delete(var("k")), Ok(b));
    s.collect(vec![]).ok().unwrap();
    assert_eq!(s.is_comment(b), Err(Error::Type));
    assert_eq!(s.room(), 63);
}

#[test]
fn collect_refuses_roots_that_the_store_does_not_hold() {
    let mut s = store();
    let a = s.new_comment(text("a")).ok().unwrap();
    assert_eq!(s.collect(vec![a, stranger()]), Err(Error::Type));
    assert_eq!(s.is_comment(a), Ok(true));
}

#[test]
fn emptied_places_are_used_again() {
    let mut s = Store::new(3, 0).ok().unwrap();
    let a = s.new_comment(text("a")).ok().unwrap();
    let b = s.new_comment(text("b")).ok().unwrap();
    assert_eq!(s.new_comment(text("c")), Err(Error::Space));
    s.collect(vec![b]).ok().unwrap();
    assert_eq!(s.room(), 1);
    let c = s.new_comment(text("c")).ok().unwrap();
    assert_eq!(&*s.get_comment_body(c).ok().unwrap(), "c");
    assert_eq!(&*s.get_comment_body(b).ok().unwrap(), "b");
    assert_eq!(c, a);
    assert_eq!(s.new_comment(text("d")), Err(Error::Space));
}

#[test]
fn a_failed_evaluation_leaves_the_store_as_it_was() {
    let mut s = Store::new(6, 10).ok().unwrap();
    let a = s.new_quote(s.new_identity().ok().unwrap()).ok().unwrap();
    let c = s.new_constant(Constant::Compose).ok().unwrap();
    let aa = s.new_sequence(a, a).ok().unwrap();
    let p = s.new_sequence(aa, c).ok().unwrap();
    assert_eq!(s.room(), 1);
    // compose takes two places: the first fits and is given up again
    assert_eq!(s.normalize(p), Err(Error::Space));
    assert_eq!(s.room(), 1);
    assert_eq!(s.get_sequence_fst(p), Ok(aa));
    assert_eq!(s.get_sequence_snd(p), Ok(c));
    s.set_quota(0);
    assert_eq!(s.normalize(p), Err(Error::Time));
    assert_eq!(s.room(), 1);
    let spare = s.new_comment(text("spare")).ok().unwrap();
    assert_eq!(s.collect(vec![p]), Ok(()));
    assert_eq!(s.is_comment(spare), Err(Error::Type));
    s.set_quota(10);
    s.collect(vec![a]).ok().unwrap();
    assert_eq!(s.room(), 4);
    let pad = s.new_comment(text("pad")).ok().unwrap();
    assert_eq!(s.is_comment(pad), Ok(true));
    assert_eq!(s.room(), 3);
    let c = s.new_constant(Constant::Copy).ok().unwrap();
    let p = s.new_sequence(a, c).ok().unwrap();
    let out = s.normalize(p).ok().unwrap();
    assert_eq!(s.get_sequence_fst(out), Ok(a));
    assert_eq!(s.get_sequence_snd(out), Ok(a));
    assert_eq!(s.room(), 0);
}
