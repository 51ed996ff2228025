//! The text of terms: how a term is written, and how a text is read.
//!
//! A program is written as its steps, with blanks between them. A
//! quotation stands in square brackets, a comment between double quotes; a
//! combinator is written by its name, and any other word is a variable.

use crate::container::Container;
use crate::heap::{lemma_extends_twice, Heap};
use crate::store::{Handle, Node, Store};
use crate::term::{assemble, joints, Constant, Error, Term, Variable};
use crate::text::shared_text;
use std::rc::Rc;
use vstd::prelude::*;
use vstd::std_specs::iter::IteratorSpec;
use vstd::string::StrSliceExecFns;
use vstd::string::StringExecFns;

verus! {

/// A character that parts words.
pub open spec fn blank(c: char) -> bool {
    c == ' ' || c == '\n' || c == '\t' || c == '\r'
}

/// A character of a word.
pub open spec fn plain(c: char) -> bool {
    !blank(c) && c != '[' && c != ']' && c != '"'
}

/// The name of a combinator.
pub open spec fn keyword(c: Constant) -> Seq<char> {
    match c {
        Constant::Apply => "apply"@,
        Constant::Quote => "quote"@,
        Constant::Compose => "compose"@,
        Constant::Copy => "copy"@,
        Constant::Drop => "drop"@,
        Constant::Swap => "swap"@,
        Constant::Shift => "shift"@,
        Constant::Reset => "reset"@,
        Constant::Bang => "bang"@,
    }
}

/// The combinator that a word names, if it names one.
pub open spec fn named(w: Seq<char>) -> Option<Constant> {
    if w == keyword(Constant::Apply) {
        Some(Constant::Apply)
    } else if w == keyword(Constant::Quote) {
        Some(Constant::Quote)
    } else if w == keyword(Constant::Compose) {
        Some(Constant::Compose)
    } else if w == keyword(Constant::Copy) {
        Some(Constant::Copy)
    } else if w == keyword(Constant::Drop) {
        Some(Constant::Drop)
    } else if w == keyword(Constant::Swap) {
        Some(Constant::Swap)
    } else if w == keyword(Constant::Shift) {
        Some(Constant::Shift)
    } else if w == keyword(Constant::Reset) {
        Some(Constant::Reset)
    } else if w == keyword(Constant::Bang) {
        Some(Constant::Bang)
    } else {
        None
    }
}

/// A piece of a text.
pub enum Lexeme {
    Open,
    Close,
    Word(Seq<char>),
    Text(Seq<char>),
}

/// Where the word that begins at `i` ends: at the first character from `i`
/// on that is not plain, or at the end of the text.
pub open spec fn word_end(s: Seq<char>, i: int) -> int
    decreases s.len() - i,
{
    if i < 0 || i >= s.len() || !plain(s[i]) {
        i
    } else {
        word_end(s, i + 1)
    }
}

/// Where the first double quote from `i` on stands; the end of the text
/// if there is none.
pub open spec fn text_end(s: Seq<char>, i: int) -> int
    decreases s.len() - i,
{
    if i < 0 || i >= s.len() || s[i] == '"' {
        i
    } else {
        text_end(s, i + 1)
    }
}

/// One piece before the pieces that follow, where those can be read.
pub open spec fn before(x: Lexeme, rest: Option<Seq<Lexeme>>) -> Option<Seq<Lexeme>> {
    match rest {
        Some(r) => Some(seq![x] + r),
        None => None,
    }
}

/// The pieces of a text from `i` on; none where a comment does not end.
pub open spec fn lex(s: Seq<char>, i: int) -> Option<Seq<Lexeme>>
    decreases s.len() - i,
{
    if i < 0 || i >= s.len() {
        Some(Seq::empty())
    } else if blank(s[i]) {
        lex(s, i + 1)
    } else if s[i] == '[' {
        before(Lexeme::Open, lex(s, i + 1))
    } else if s[i] == ']' {
        before(Lexeme::Close, lex(s, i + 1))
    } else if s[i] == '"' {
        let j = text_end(s, i + 1);
        if j <= i || j >= s.len() {
            None
        } else {
            before(Lexeme::Text(s.subrange(i + 1, j)), lex(s, j + 1))
        }
    } else {
        let j = word_end(s, i);
        if j <= i || j > s.len() {
            None
        } else {
            before(Lexeme::Word(s.subrange(i, j)), lex(s, j))
        }
    }
}

/// The term of a piece that is no bracket.
pub open spec fn leaf(x: Lexeme) -> Term {
    match x {
        Lexeme::Word(w) => match named(w) {
            Some(c) => Term::Constant(c),
            None => Term::Variable(w),
        },
        Lexeme::Text(b) => Term::Comment(b),
        _ => Term::Identity,
    }
}

/// The steps that the pieces from `i` on stand for, up to the end of the
/// pieces or, inside a quotation, up to the bracket that closes it; and
/// where the pieces after them begin. None where the brackets do not match.
pub open spec fn nest(ts: Seq<Lexeme>, i: int, inside: bool) -> Option<(Seq<Term>, int)>
    decreases ts.len() - i,
{
    if i < 0 || i >= ts.len() {
        if inside {
            None
        } else {
            Some((Seq::empty(), i))
        }
    } else {
        match ts[i] {
            Lexeme::Close => if inside {
                Some((Seq::empty(), i + 1))
            } else {
                None
            },
            Lexeme::Open => match nest(ts, i + 1, true) {
                Some((body, j)) => if i < j <= ts.len() {
                    match nest(ts, j, inside) {
                        Some((rest, k)) => Some(
                            (seq![Term::Quote(Box::new(assemble(body)))] + rest, k),
                        ),
                        None => None,
                    }
                } else {
                    None
                },
                None => None,
            },
            x => match nest(ts, i + 1, inside) {
                Some((rest, k)) => Some((seq![leaf(x)] + rest, k)),
                None => None,
            },
        }
    }
}

/// The term that a text stands for, if it stands for one.
pub open spec fn parse(s: Seq<char>) -> Option<Term> {
    match lex(s, 0) {
        Some(ts) => match nest(ts, 0, false) {
            Some((steps, _)) => Some(assemble(steps)),
            None => None,
        },
        None => None,
    }
}

/// The characters of a text.
pub fn chars_of(s: &str) -> (v: Vec<char>)
    ensures
        v@ == s@,
{
    broadcast use vstd::string::group_string_axioms;

    let mut it = s.chars();
    let mut v: Vec<char> = Vec::new();
    let ghost all = s@;
    loop
        invariant
            all == s@,
            v@ + it.remaining() == all,
            it.obeys_prophetic_iter_laws(),
            it.decrease() is Some,
        decreases it.decrease()->0,
    {
        match it.next() {
            Some(c) => {
                v.push(c);
                proof {
                    assert(v@ + it.remaining() =~= all);
                }
            },
            None => {
                proof {
                    assert(v@ =~= all);
                }
                return v;
            },
        }
    }
}

/// A piece of a text, with its characters.
pub enum Token {
    Open,
    Close,
    Word(Rc<str>),
    Text(Rc<str>),
}

impl Token {
    pub open spec fn view(&self) -> Lexeme {
        match self {
            Token::Open => Lexeme::Open,
            Token::Close => Lexeme::Close,
            Token::Word(w) => Lexeme::Word(w@),
            Token::Text(b) => Lexeme::Text(b@),
        }
    }
}

/// The pieces that the tokens stand for.
pub open spec fn lexemes(ts: Seq<Token>) -> Seq<Lexeme> {
    Seq::new(ts.len(), |i: int| ts[i]@)
}

/// Whether a character parts words.
pub fn is_blank(c: char) -> (r: bool)
    ensures
        r == blank(c),
{
    c == ' ' || c == '\n' || c == '\t' || c == '\r'
}

/// Whether a character may stand in a word.
pub fn is_plain(c: char) -> (r: bool)
    ensures
        r == plain(c),
{
    !is_blank(c) && c != '[' && c != ']' && c != '"'
}

/// The pieces that are read, then the pieces that are still to read.
pub open spec fn glue(done: Seq<Lexeme>, rest: Option<Seq<Lexeme>>) -> Option<Seq<Lexeme>> {
    match rest {
        Some(r) => Some(done + r),
        None => None,
    }
}

/// Takes a text apart. Fails with `Error::Syntax` where a comment does
/// not end.
pub fn tokens(src: &str) -> (r: Result<Vec<Token>, Error>)
    ensures
        match lex(src@, 0) {
            Some(ls) => r matches Ok(ts) && lexemes(ts@) == ls,
            None => r matches Err(e) && e == Error::Syntax,
        },
{
    let chars = chars_of(src);
    let ghost s = src@;
    let n: usize = chars.len();
    let mut out: Vec<Token> = Vec::new();
    let mut i: usize = 0;
    proof {
        assert(lexemes(out@) =~= Seq::<Lexeme>::empty());
        assert(Seq::<Lexeme>::empty() + lex(s, 0)->Some_0 =~= lex(s, 0)->Some_0);
    }
    while i < n
        invariant
            s == src@,
            chars@ == s,
            n == s.len(),
            i <= n,
            lex(s, 0) == glue(lexemes(out@), lex(s, i as int)),
        decreases n - i,
    {
        let c = chars[i];
        let ghost done = lexemes(out@);
        if is_blank(c) {
            i = i + 1;
        } else if c == '[' {
            out.push(Token::Open);
            i = i + 1;
            proof {
                assert(lexemes(out@) =~= done.push(Lexeme::Open));
                let rest = lex(s, i as int);
                if rest is Some {
                    assert(done + (seq![Lexeme::Open] + rest->Some_0) =~= done.push(Lexeme::Open)
                        + rest->Some_0);
                }
            }
        } else if c == ']' {
            out.push(Token::Close);
            i = i + 1;
            proof {
                assert(lexemes(out@) =~= done.push(Lexeme::Close));
                let rest = lex(s, i as int);
                if rest is Some {
                    assert(done + (seq![Lexeme::Close] + rest->Some_0) =~= done.push(
                        Lexeme::Close,
                    ) + rest->Some_0);
                }
            }
        } else if c == '"' {
            let mut j: usize = i + 1;
            while j < n && chars[j] != '"'
                invariant
                    chars@ == s,
                    n == s.len(),
                    i < j <= n,
                    text_end(s, i + 1) == text_end(s, j as int),
                decreases n - j,
            {
                j = j + 1;
            }
            if j >= n {
                return Err(Error::Syntax);
            }
            let body = shared_text(src.substring_char(i + 1, j));
            let ghost x = Lexeme::Text(s.subrange(i + 1, j as int));
            out.push(Token::Text(body));
            i = j + 1;
            proof {
                assert(lexemes(out@) =~= done.push(x));
                let rest = lex(s, i as int);
                if rest is Some {
                    assert(done + (seq![x] + rest->Some_0) =~= done.push(x) + rest->Some_0);
                }
            }
        } else {
            let mut j: usize = i + 1;
            while j < n && is_plain(chars[j])
                invariant
                    chars@ == s,
                    n == s.len(),
                    i < j <= n,
                    word_end(s, i as int) == word_end(s, j as int),
                decreases n - j,
            {
                j = j + 1;
            }
            let word = shared_text(src.substring_char(i, j));
            let ghost x = Lexeme::Word(s.subrange(i as int, j as int));
            out.push(Token::Word(word));
            i = j;
            proof {
                assert(lexemes(out@) =~= done.push(x));
                let rest = lex(s, i as int);
                if rest is Some {
                    assert(done + (seq![x] + rest->Some_0) =~= done.push(x) + rest->Some_0);
                }
            }
        }
    }
    proof {
        assert(lexemes(out@) + Seq::<Lexeme>::empty() =~= lexemes(out@));
    }
    Ok(out)
}

/// Where the steps from `i` on end, if the brackets match.
pub open spec fn span(ls: Seq<Lexeme>, i: int, inside: bool) -> Option<int> {
    match nest(ls, i, inside) {
        Some((_, k)) => Some(k),
        None => None,
    }
}

/// The steps end after they begin, within the pieces.
pub proof fn lemma_nest_bounds(ls: Seq<Lexeme>, i: int, inside: bool)
    requires
        0 <= i <= ls.len(),
        nest(ls, i, inside) is Some,
    ensures
        i <= nest(ls, i, inside)->Some_0.1 <= ls.len(),
        inside ==> i < nest(ls, i, inside)->Some_0.1,
    decreases ls.len() - i,
{
    if i < ls.len() {
        match ls[i] {
            Lexeme::Close => {},
            Lexeme::Open => {
                lemma_nest_bounds(ls, i + 1, true);
                let j = nest(ls, i + 1, true)->Some_0.1;
                lemma_nest_bounds(ls, j, inside);
            },
            _ => {
                lemma_nest_bounds(ls, i + 1, inside);
            },
        }
    }
}

/// How many places a term takes in a store, which holds the empty program.
pub open spec fn nodes(t: Term) -> nat
    decreases t,
{
    match t {
        Term::Identity => 0,
        Term::Quote(b) => 1 + nodes(*b),
        Term::Sequence(a, b) => 1 + nodes(*a) + nodes(*b),
        _ => 1,
    }
}

/// How many places the terms take together.
pub open spec fn total(ts: Seq<Term>) -> nat
    decreases ts.len(),
{
    if ts.len() == 0 {
        0
    } else {
        total(ts.drop_last()) + nodes(ts.last())
    }
}

pub proof fn lemma_total_cat(a: Seq<Term>, b: Seq<Term>)
    ensures
        total(a + b) == total(a) + total(b),
    decreases b.len(),
{
    if b.len() == 0 {
        assert(a + b =~= a);
    } else {
        assert((a + b).drop_last() =~= a + b.drop_last());
        lemma_total_cat(a, b.drop_last());
    }
}

pub proof fn lemma_total_one(t: Term)
    ensures
        total(seq![t]) == nodes(t),
{
    reveal_with_fuel(total, 2);
    assert(seq![t].drop_last() =~= Seq::<Term>::empty());
}

/// Joined steps take the places of the steps and of the joints.
pub proof fn lemma_nodes_assemble(ts: Seq<Term>)
    ensures
        nodes(assemble(ts)) == total(ts) + joints(ts.len()),
    decreases ts.len(),
{
    reveal_with_fuel(total, 2);
    if ts.len() == 1 {
        assert(ts.drop_last() =~= Seq::<Term>::empty());
        assert(assemble(ts) == ts[0]);
    } else if ts.len() >= 2 {
        lemma_nodes_assemble(ts.drop_last());
        assert(assemble(ts) == Term::Sequence(
            Box::new(assemble(ts.drop_last())),
            Box::new(ts.last()),
        ));
    }
}

/// The steps that are read, then the steps that are still to read.
pub open spec fn attach(done: Seq<Term>, rest: Option<(Seq<Term>, int)>) -> Option<
    (Seq<Term>, int),
> {
    match rest {
        Some((r, k)) => Some((done + r, k)),
        None => None,
    }
}

/// The combinator that a word names, if it names one.
pub fn constant_named(w: &Rc<str>) -> (r: Option<Constant>)
    ensures
        r == named(w@),
{
    let s = String::from_str(&**w);
    if s == String::from_str("apply") {
        Some(Constant::Apply)
    } else if s == String::from_str("quote") {
        Some(Constant::Quote)
    } else if s == String::from_str("compose") {
        Some(Constant::Compose)
    } else if s == String::from_str("copy") {
        Some(Constant::Copy)
    } else if s == String::from_str("drop") {
        Some(Constant::Drop)
    } else if s == String::from_str("swap") {
        Some(Constant::Swap)
    } else if s == String::from_str("shift") {
        Some(Constant::Shift)
    } else if s == String::from_str("reset") {
        Some(Constant::Reset)
    } else if s == String::from_str("bang") {
        Some(Constant::Bang)
    } else {
        None
    }
}

/// Where the steps from `start` on end, if the brackets match.
pub fn closes(ts: &Vec<Token>, start: usize, inside: bool) -> (r: Option<usize>)
    requires
        start <= ts@.len(),
    ensures
        match span(lexemes(ts@), start as int, inside) {
            Some(k) => r == Some(k as usize) && start <= k <= ts@.len(),
            None => r is None,
        },
    decreases ts@.len() - start,
{
    let ghost ls = lexemes(ts@);
    let n: usize = ts.len();
    let mut i: usize = start;
    proof {
        if nest(ls, start as int, inside) is Some {
            lemma_nest_bounds(ls, start as int, inside);
        }
    }
    while i < n
        invariant
            ls == lexemes(ts@),
            n == ts@.len(),
            start <= i <= n,
            span(ls, start as int, inside) == span(ls, i as int, inside),
        decreases n - i,
    {
        proof {
            assert(ls[i as int] == ts@[i as int]@);
        }
        match &ts[i] {
            Token::Close => {
                if inside {
                    return Some(i + 1);
                } else {
                    return None;
                }
            },
            Token::Open => {
                match closes(ts, i + 1, true) {
                    None => {
                        return None;
                    },
                    Some(j) => {
                        proof {
                            lemma_nest_bounds(ls, i + 1, true);
                        }
                        i = j;
                    },
                }
            },
            _ => {
                i = i + 1;
            },
        }
    }
    if inside {
        None
    } else {
        Some(i)
    }
}

/// The step that begins at piece `i`, and where the pieces after it begin.
/// None at a closing bracket and where the brackets do not match.
pub open spec fn item(ls: Seq<Lexeme>, i: int) -> Option<(Term, int)> {
    if i < 0 || i >= ls.len() {
        None
    } else {
        match ls[i] {
            Lexeme::Close => None,
            Lexeme::Open => match nest(ls, i + 1, true) {
                Some((body, j)) => if i < j <= ls.len() {
                    Some((Term::Quote(Box::new(assemble(body))), j))
                } else {
                    None
                },
                None => None,
            },
            x => Some((leaf(x), i + 1)),
        }
    }
}

/// The steps from `i` on are the step at `i` and the steps after it.
pub proof fn lemma_nest_item(ls: Seq<Lexeme>, i: int, inside: bool)
    requires
        0 <= i < ls.len(),
        !(ls[i] is Close),
        nest(ls, i, inside) is Some,
    ensures
        item(ls, i) is Some,
        i < item(ls, i)->Some_0.1 <= ls.len(),
        nest(ls, item(ls, i)->Some_0.1, inside) is Some,
        nest(ls, i, inside) == Some(
            (
                seq![item(ls, i)->Some_0.0] + nest(ls, item(ls, i)->Some_0.1, inside)->Some_0.0,
                nest(ls, item(ls, i)->Some_0.1, inside)->Some_0.1,
            ),
        ),
{
}

impl Store {
    /// Makes the step that begins at token `i`.
    pub(crate) fn plant_one(&mut self, ts: &Vec<Token>, i: usize) -> (r: Result<
        (Handle, usize),
        Error,
    >)
        requires
            old(self).inv(),
            i < ts@.len(),
            item(lexemes(ts@), i as int) is Some,
        ensures
            final(self).inv(),
            old(self)@.extends_to(final(self)@),
            ({
                let (t, j) = item(lexemes(ts@), i as int)->Some_0;
                if nodes(t) > old(self)@.room() {
                    r == Err::<(Handle, usize), Error>(Error::Space)
                } else {
                    &&& r matches Ok((h, end))
                    &&& end == j
                    &&& i < end <= ts@.len()
                    &&& final(self)@.has(h)
                    &&& final(self)@.terms[h] == t
                    &&& final(self)@.room() == old(self)@.room() - nodes(t)
                }
            }),
        decreases ts@.len() - i, 0nat,
    {
        let ghost pre = self@;
        let ghost ls = lexemes(ts@);
        let n: usize = ts.len();
        proof {
            assert(ls[i as int] == ts@[i as int]@);
            lemma_extends_twice(pre, pre, pre);
        }
        match &ts[i] {
            Token::Close => Err(Error::Bug),
            Token::Open => {
                let ghost inner = nest(ls, i + 1, true)->Some_0;
                proof {
                    lemma_nodes_assemble(inner.0);
                }
                let (body, j) = match self.plant(ts, i + 1, true) {
                    Ok(x) => x,
                    Err(e) => {
                        return Err(e);
                    },
                };
                let ghost grown = self@;
                let b = match self.join(&body) {
                    Ok(b) => b,
                    Err(e) => {
                        proof {
                            lemma_extends_twice(pre, grown, self@);
                        }
                        return Err(e);
                    },
                };
                let ghost joined = self@;
                proof {
                    lemma_extends_twice(pre, grown, joined);
                    assert(seq![b][0] == b);
                }
                match self.enter(Node::Quote(b)) {
                    Ok(q) => {
                        proof {
                            lemma_extends_twice(pre, joined, self@);
                        }
                        Ok((q, j))
                    },
                    Err(e) => {
                        proof {
                            lemma_extends_twice(pre, joined, self@);
                        }
                        Err(e)
                    },
                }
            },
            Token::Word(w) => {
                let node = match constant_named(w) {
                    Some(c) => Node::Constant(c),
                    None => Node::Variable(crate::text::share_text(w)),
                };
                match self.enter(node) {
                    Ok(h) => Ok((h, i + 1)),
                    Err(e) => Err(e),
                }
            },
            Token::Text(t) => {
                match self.enter(Node::Comment(crate::text::share_text(t))) {
                    Ok(h) => Ok((h, i + 1)),
                    Err(e) => Err(e),
                }
            },
        }
    }

    /// Makes the steps that the tokens from `start` on stand for. The
    /// brackets match.
    #[verifier::loop_isolation(false)]
    pub(crate) fn plant(&mut self, ts: &Vec<Token>, start: usize, inside: bool) -> (r: Result<
        (Vec<Handle>, usize),
        Error,
    >)
        requires
            old(self).inv(),
            start <= ts@.len(),
            nest(lexemes(ts@), start as int, inside) is Some,
        ensures
            final(self).inv(),
            old(self)@.extends_to(final(self)@),
            ({
                let (steps, k) = nest(lexemes(ts@), start as int, inside)->Some_0;
                if total(steps) > old(self)@.room() {
                    r == Err::<(Vec<Handle>, usize), Error>(Error::Space)
                } else {
                    &&& r matches Ok((hs, end))
                    &&& end == k
                    &&& end <= ts@.len()
                    &&& final(self)@.has_all(hs@)
                    &&& final(self)@.views(hs@) == steps
                    &&& final(self)@.room() == old(self)@.room() - total(steps)
                }
            }),
        decreases ts@.len() - start, 1nat,
    {
        let ghost pre = self@;
        let ghost ls = lexemes(ts@);
        let ghost goal = nest(ls, start as int, inside);
        let n: usize = ts.len();
        let mut acc: Vec<Handle> = Vec::new();
        let mut i: usize = start;
        let mut open = true;
        proof {
            lemma_extends_twice(pre, pre, pre);
            assert(pre.views(acc@) =~= Seq::<Term>::empty());
            assert(Seq::<Term>::empty() + goal->Some_0.0 =~= goal->Some_0.0);
        }
        while open && i < n
            invariant
                self.inv(),
                pre.extends_to(self@),
                start <= i <= n,
                self@.has_all(acc@),
                open ==> goal == attach(self@.views(acc@), nest(ls, i as int, inside)),
                !open ==> goal == Some((self@.views(acc@), i as int)),
                self@.room() + total(self@.views(acc@)) == pre.room(),
            decreases (if open { 1nat } else { 0nat }), n - i,
        {
            let ghost mid = self@;
            let ghost done = mid.views(acc@);
            let ghost rest = nest(ls, i as int, inside);
            proof {
                assert(ls[i as int] == ts@[i as int]@);
                lemma_total_cat(done, rest->Some_0.0);
            }
            let close = match &ts[i] {
                Token::Close => true,
                _ => false,
            };
            if close {
                proof {
                    assert(done + Seq::<Term>::empty() =~= done);
                }
                open = false;
                i = i + 1;
            } else {
                let ghost it = item(ls, i as int)->Some_0;
                let ghost tail = nest(ls, it.1, inside)->Some_0;
                proof {
                    lemma_nest_item(ls, i as int, inside);
                    lemma_total_cat(seq![it.0], tail.0);
                    lemma_total_one(it.0);
                }
                let (h, j) = match self.plant_one(ts, i) {
                    Ok(x) => x,
                    Err(e) => {
                        proof {
                            lemma_extends_twice(pre, mid, self@);
                        }
                        return Err(e);
                    },
                };
                let ghost had = acc@;
                acc.push(h);
                i = j;
                proof {
                    let now = self@;
                    lemma_extends_twice(pre, mid, now);
                    crate::heap::lemma_views_kept(mid, now, had);
                    crate::heap::lemma_views_push(now, had, h);
                    assert(done + (seq![it.0] + tail.0) =~= done.push(it.0) + tail.0);
                    lemma_total_cat(done, seq![it.0]);
                    assert(done + seq![it.0] =~= done.push(it.0));
                }
            }
        }
        proof {
            if open {
                assert(self@.views(acc@) + Seq::<Term>::empty() =~= self@.views(acc@));
            }
        }
        Ok((acc, i))
    }
}

/// What `read` does: it fails on a text that stands for no term, fails
/// where the store has no room for the term, and else returns a handle of
/// the term. The store may only gain terms, and a failure changes nothing.
pub open spec fn was_read<O>(pre: Heap<O>, post: Heap<O>, src: Seq<char>, r: Result<O, Error>) -> bool {
    &&& pre.extends_to(post)
    &&& match parse(src) {
        None => r == Err::<O, Error>(Error::Syntax) && post == pre,
        Some(t) => if nodes(t) > pre.room() {
            r == Err::<O, Error>(Error::Space) && post == pre
        } else {
            &&& r matches Ok(o)
            &&& post.has(o)
            &&& post.terms[o] == t
            &&& post.room() == pre.room() - nodes(t)
        },
    }
}

/// A name that can be written as a word: it has a character, all its
/// characters are plain, and it is no name of a combinator.
pub open spec fn wordy(n: Seq<char>) -> bool {
    &&& n.len() > 0
    &&& forall|i: int| 0 <= i < n.len() ==> plain(#[trigger] n[i])
    &&& named(n) is None
}

/// A text that can be written between double quotes: it holds none.
pub open spec fn quotable(b: Seq<char>) -> bool {
    forall|i: int| 0 <= i < b.len() ==> #[trigger] b[i] != '"'
}

/// Whether a term can be written so that it reads back.
pub open spec fn printable(t: Term) -> bool
    decreases t,
{
    match t {
        Term::Variable(n) => wordy(n),
        Term::Comment(b) => quotable(b),
        Term::Quote(b) => printable(*b),
        Term::Sequence(a, b) => printable(*a) && printable(*b),
        _ => true,
    }
}

/// A term as a text.
pub open spec fn print(t: Term) -> Seq<char>
    decreases t,
{
    match t {
        Term::Identity => Seq::empty(),
        Term::Constant(c) => keyword(c),
        Term::Variable(n) => n,
        Term::Comment(b) => seq!['"'] + b + seq!['"'],
        Term::Quote(b) => seq!['['] + print(*b) + seq![']'],
        Term::Sequence(a, b) => print(*a) + seq![' '] + print(*b),
    }
}

/// What `show` answers for a handle.
pub open spec fn shown<O>(heap: Heap<O>, obj: O) -> Result<Seq<char>, Error> {
    if heap.has(obj) && printable(heap.terms[obj]) {
        Ok(print(heap.terms[obj]))
    } else {
        Err(Error::Type)
    }
}

/// The name of a combinator.
pub fn word_of(c: Constant) -> (r: &'static str)
    ensures
        r@ == keyword(c),
{
    match c {
        Constant::Apply => "apply",
        Constant::Quote => "quote",
        Constant::Compose => "compose",
        Constant::Copy => "copy",
        Constant::Drop => "drop",
        Constant::Swap => "swap",
        Constant::Shift => "shift",
        Constant::Reset => "reset",
        Constant::Bang => "bang",
    }
}

/// Whether a name can be written as a word.
pub fn is_wordy(n: &Rc<str>) -> (r: bool)
    ensures
        r == wordy(n@),
{
    let cs = chars_of(&**n);
    if cs.len() == 0 {
        return false;
    }
    let mut i: usize = 0;
    while i < cs.len()
        invariant
            cs@ == n@,
            i <= cs@.len(),
            forall|k: int| 0 <= k < i ==> plain(#[trigger] cs@[k]),
        decreases cs@.len() - i,
    {
        if !is_plain(cs[i]) {
            return false;
        }
        i = i + 1;
    }
    constant_named(n).is_none()
}

/// Whether a text can be written between double quotes.
pub fn is_quotable(b: &Rc<str>) -> (r: bool)
    ensures
        r == quotable(b@),
{
    let cs = chars_of(&**b);
    let mut i: usize = 0;
    while i < cs.len()
        invariant
            cs@ == b@,
            i <= cs@.len(),
            forall|k: int| 0 <= k < i ==> #[trigger] cs@[k] != '"',
        decreases cs@.len() - i,
    {
        if cs[i] == '"' {
            return false;
        }
        i = i + 1;
    }
    true
}

impl Store {
    /// Writes the term of a handle at the end of a text, if it can be
    /// written.
    pub(crate) fn write(&self, obj: Handle, out: &mut String) -> (ok: bool)
        requires
            self.inv(),
            self@.has(obj),
        ensures
            ok == printable(self@.terms[obj]),
            ok ==> final(out)@ == old(out)@ + print(self@.terms[obj]),
        decreases self@.terms[obj].size(),
    {
        let ghost t = self@.terms[obj];
        let ghost o0 = out@;
        proof {
            self.consistent();
            assert(self@.linked(obj));
            reveal_strlit("[");
            reveal_strlit("]");
            reveal_strlit(" ");
            reveal_strlit("\"");
        }
        match self.look(obj) {
            None => false,
            Some(Node::Identity) => {
                proof {
                    assert(o0 + print(t) =~= o0);
                }
                true
            },
            Some(Node::Constant(c)) => {
                out.append(word_of(*c));
                true
            },
            Some(Node::Variable(n)) => {
                if !is_wordy(n) {
                    return false;
                }
                out.append(&**n);
                true
            },
            Some(Node::Comment(b)) => {
                if !is_quotable(b) {
                    return false;
                }
                out.append("\"");
                out.append(&**b);
                out.append("\"");
                proof {
                    assert("\""@ =~= seq!['"']);
                    assert(out@ =~= o0 + print(t));
                }
                true
            },
            Some(Node::Quote(b)) => {
                proof {
                    assert(seq![*b][0] == *b);
                }
                out.append("[");
                if !self.write(*b, out) {
                    return false;
                }
                out.append("]");
                proof {
                    assert("["@ =~= seq!['[']);
                    assert("]"@ =~= seq![']']);
                    assert(out@ =~= o0 + print(t));
                }
                true
            },
            Some(Node::Sequence(a, b)) => {
                proof {
                    assert(seq![*a, *b][0] == *a);
                    assert(seq![*a, *b][1] == *b);
                }
                if !self.write(*a, out) {
                    return false;
                }
                out.append(" ");
                if !self.write(*b, out) {
                    return false;
                }
                proof {
                    assert(" "@ =~= seq![' ']);
                    assert(out@ =~= o0 + print(t));
                }
                true
            },
        }
    }
}

} // verus!
