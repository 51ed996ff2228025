use abcc::{Constant, Container, Error, Handle, Store, Variable};
use std::rc::Rc;

fn text(s: &str) -> Rc<str> {
    Rc::from(s)
}

fn var(s: &str) -> Variable {
    Variable::read(text(s)).ok().unwrap()
}

fn store() -> Store {
    Store::new(256, 1000).ok().unwrap()
}

fn shown(src: &str) -> Result<String, Error> {
    let mut s = store();
    let h = s.read(src)?;
    s.show(h)
}

#[test]
fn read_makes_the_term_that_the_text_stands_for() {
    let mut s = store();
    let h = s.read("[x copy] \"note\" swap").ok().unwrap();
    // ((quotation comment) swap)
    let left = s.get_sequence_fst(h).ok().unwrap();
    let swap = s.get_sequence_snd(h).ok().unwrap();
    assert_eq!(s.get_constant_name(swap), Ok(Constant::Swap));
    let q = s.get_sequence_fst(left).ok().unwrap();
    let note = s.get_sequence_snd(left).ok().unwrap();
    assert_eq!(&*s.get_comment_body(note).ok().unwrap(), "note");
    let body = s.get_quote_body(q).ok().unwrap();
    let x = s.get_sequence_fst(body).ok().unwrap();
    let copy = s.get_sequence_snd(body).ok().unwrap();
    assert_eq!(&*s.get_variable_name(x).ok().unwrap().0, "x");
    assert_eq!(s.get_constant_name(copy), Ok(Constant::Copy));
}

#[test]
fn read_knows_the_nine_combinators_by_name() {
    let names = [
        ("apply", Constant::Apply),
        ("quote", Constant::Quote),
        ("compose", Constant::Compose),
        ("copy", Constant::Copy),
        ("drop", Constant::Drop),
        ("swap", Constant::Swap),
        ("shift", Constant::Shift),
        ("reset", Constant::Reset),
        ("bang", Constant::Bang),
    ];
    for (n, c) in names {
        let mut s = store();
        let h = s.read(n).ok().unwrap();
        assert_eq!(s.get_constant_name(h), Ok(c));
        assert_eq!(s.show(h), Ok(n.to_string()));
    }
}

#[test]
fn any_other_word_is_a_variable() {
    for n in ["x", "Copy", "copy2", "a-b", "\u{e9}", "appl"] {
        let mut s = store();
        let h = s.read(n).ok().unwrap();
        assert_eq!(&*s.get_variable_name(h).ok().unwrap().0, n);
    }
}

#[test]
fn an_empty_text_is_the_identity() {
    let mut s = store();
    let room = s.room();
    let u = s.new_identity().ok().unwrap();
    assert_eq!(s.read(""), Ok(u));
    assert_eq!(s.read("  \n\t\r "), Ok(u));
    assert_eq!(s.room(), room);
    assert_eq!(s.show(u), Ok(String::new()));
}

#[test]
fn blanks_part_words_and_are_not_kept() {
    assert_eq!(shown("  a\n\tb  \r\n c "), Ok("a b c".to_string()));
    assert_eq!(shown("[a][b]\"c\"d"), Ok("[a] [b] \"c\" d".to_string()));
    assert_eq!(shown("[ ]"), Ok("[]".to_string()));
    assert_eq!(shown("[[ a ]]"), Ok("[[a]]".to_string()));
}

#[test]
fn a_comment_keeps_its_blanks_and_brackets() {
    let mut s = store();
    let h = s.read("\" [a  b] \"").ok().unwrap();
    assert_eq!(&*s.get_comment_body(h).ok().unwrap(), " [a  b] ");
    assert_eq!(s.show(h), Ok("\" [a  b] \"".to_string()));
    let h = s.read("\"\"").ok().unwrap();
    assert_eq!(&*s.get_comment_body(h).ok().unwrap(), "");
}

#[test]
fn read_fails_on_brackets_that_do_not_match() {
    for src in ["[", "]", "[a", "a]", "[[a]", "[a]]", "][", "[\"]\""] {
        let mut s = store();
        let room = s.room();
        assert_eq!(s.read(src), Err(Error::Syntax));
        assert_eq!(s.room(), room);
    }
}

#[test]
fn read_fails_on_a_comment_that_does_not_end() {
    for src in ["\"", "\"abc", "a \"b\" \"c", "[\"a]"] {
        let mut s = store();
        assert_eq!(s.read(src), Err(Error::Syntax));
    }
}

#[test]
fn read_takes_one_place_for_each_step_quotation_and_joint() {
    // a, b, the joint of the body, the quotation, c, the joint: six places
    let src = "[a b] c";
    let mut s = Store::new(7, 0).ok().unwrap();
    let h = s.read(src).ok().unwrap();
    assert_eq!(s.room(), 0);
    assert_eq!(s.show(h), Ok("[a b] c".to_string()));
    let mut s = Store::new(6, 0).ok().unwrap();
    assert_eq!(s.read(src), Err(Error::Space));
    assert_eq!(s.room(), 5);
    let h = s.read("[a b]").ok().unwrap();
    assert_eq!(s.show(h), Ok("[a b]".to_string()));
    assert_eq!(s.room(), 1);
}

#[test]
fn a_syntax_error_comes_before_a_space_error() {
    let mut s = Store::new(1, 0).ok().unwrap();
    assert_eq!(s.read("a b c ]"), Err(Error::Syntax));
    assert_eq!(s.read("a b c"), Err(Error::Space));
}

#[test]
fn show_writes_sequences_flat() {
    let mut s = store();
    let a = s.new_variable(var("a")).ok().unwrap();
    let b = s.new_variable(var("b")).ok().unwrap();
    let c = s.new_constant(Constant::Compose).ok().unwrap();
    let bc = s.new_sequence(b, c).ok().unwrap();
    let p = s.new_sequence(a, bc).ok().unwrap();
    let q = s.new_quote(p).ok().unwrap();
    assert_eq!(s.show(q), Ok("[a b compose]".to_string()));
    let u = s.new_identity().ok().unwrap();
    let qu = s.new_quote(u).ok().unwrap();
    assert_eq!(s.show(qu), Ok("[]".to_string()));
}

#[test]
fn show_refuses_what_would_not_read_back() {
    let mut s = store();
    for n in ["", "copy", "two words", "a[b", "a]b", "a\"b", "tab\there"] {
        let v = s.new_variable(var(n)).ok().unwrap();
        assert_eq!(s.show(v), Err(Error::Type));
        let q = s.new_quote(v).ok().unwrap();
        assert_eq!(s.show(q), Err(Error::Type));
    }
    let n = s.new_comment(text("say \"hi\"")).ok().unwrap();
    assert_eq!(s.show(n), Err(Error::Type));
    let ok = s.new_variable(var("fine")).ok().unwrap();
    let p = s.new_sequence(ok, n).ok().unwrap();
    assert_eq!(s.show(p), Err(Error::Type));
    let p = s.new_sequence(n, ok).ok().unwrap();
    assert_eq!(s.show(p), Err(Error::Type));
}

#[test]
fn show_refuses_a_handle_that_the_store_does_not_hold() {
    let mut other = store();
    let mut far: Option<Handle> = None;
    for _ in 0..9 {
        far = other.new_constant(Constant::Copy).ok();
    }
    let s = Store::new(4, 0).ok().unwrap();
    assert_eq!(s.show(far.unwrap()), Err(Error::Type));
}

#[test]
fn what_is_shown_reads_back() {
    for src in ["a", "[a] apply", "[[a] [b copy]] \"c d\" x swap", "[] [] compose", ""] {
        let mut s = store();
        let h = s.read(src).ok().unwrap();
        let out = s.show(h).ok().unwrap();
        assert_eq!(out, src);
        let again = s.read(&out).ok().unwrap();
        assert_eq!(s.show(again), Ok(out));
    }
}

#[test]
fn a_program_that_is_read_can_be_normalized() {
    let mut s = store();
    let p = s.read("\"a\" [copy] apply [x] swap drop").ok().unwrap();
    let out = s.normalize(p).ok().unwrap();
    assert_eq!(s.show(out), Ok("\"a\" [x]".to_string()));
}
