//! What is written reads back: the law that ties `show` to `read`.

use crate::syntax::{
    before, blank, glue, keyword, leaf, lex, named, nest, parse, plain, print, printable, quotable,
    text_end, word_end, Lexeme,
};
use crate::term::{assemble, Constant, Term};
use vstd::prelude::*;

verus! {

/// A text that may follow a word: it is empty or begins with a character
/// that ends a word.
pub open spec fn parting(tail: Seq<char>) -> bool {
    tail.len() == 0 || !plain(tail[0])
}

/// Where a word or a comment ends depends on the text from its beginning
/// on only.
proof fn lemma_end_shift(s: Seq<char>, i: int)
    requires
        0 <= i <= s.len(),
    ensures
        word_end(s, i) - i == word_end(s.skip(i), 0),
        text_end(s, i) - i == text_end(s.skip(i), 0),
        i <= word_end(s, i) <= s.len(),
        i <= text_end(s, i) <= s.len(),
    decreases s.len() - i,
{
    if i < s.len() {
        let t = s.skip(i);
        assert(t[0] == s[i]);
        assert(t.skip(1) =~= s.skip(i + 1));
        lemma_end_shift(s, i + 1);
        lemma_end_shift(t, 1);
    }
}

/// The pieces of a text from a place on depend on the text from there on
/// only.
proof fn lemma_lex_shift(s: Seq<char>, i: int)
    requires
        0 <= i <= s.len(),
    ensures
        lex(s, i) == lex(s.skip(i), 0),
    decreases s.len() - i,
{
    if i < s.len() {
        let t = s.skip(i);
        assert(t[0] == s[i]);
        assert(t.skip(1) =~= s.skip(i + 1));
        if blank(s[i]) || s[i] == '[' || s[i] == ']' {
            lemma_lex_shift(s, i + 1);
            lemma_lex_shift(t, 1);
        } else if s[i] == '"' {
            lemma_end_shift(s, i + 1);
            lemma_end_shift(t, 1);
            let j = text_end(s, i + 1);
            assert(t.skip(1).skip(0) =~= t.skip(1));
            assert(s.skip(i + 1).skip(0) =~= s.skip(i + 1));
            assert(text_end(t, 1) == j - i);
            if j < s.len() {
                assert(t.subrange(1, j - i) =~= s.subrange(i + 1, j));
                lemma_lex_shift(s, j + 1);
                lemma_lex_shift(t, j - i + 1);
                assert(t.skip(j - i + 1) =~= s.skip(j + 1));
            }
        } else {
            lemma_end_shift(s, i);
            lemma_end_shift(t, 0);
            assert(t.skip(0) =~= t);
            let j = word_end(s, i);
            assert(word_end(t, 0) == j - i);
            assert(word_end(s, i) == word_end(s, i + 1));
            lemma_end_shift(s, i + 1);
            assert(j > i);
            assert(t.subrange(0, j - i) =~= s.subrange(i, j));
            lemma_lex_shift(s, j);
            lemma_lex_shift(t, j - i);
            assert(t.skip(j - i) =~= s.skip(j));
        }
    }
}

/// A word ends where the plain characters end.
proof fn lemma_word_end(w: Seq<char>, tail: Seq<char>, i: int)
    requires
        0 <= i <= w.len(),
        forall|k: int| 0 <= k < w.len() ==> plain(#[trigger] w[k]),
        parting(tail),
    ensures
        word_end(w + tail, i) == w.len(),
    decreases w.len() - i,
{
    let s = w + tail;
    if i < w.len() {
        assert(s[i] == w[i]);
        lemma_word_end(w, tail, i + 1);
    } else if tail.len() > 0 {
        assert(s[i] == tail[0]);
    }
}

/// A comment ends at the first double quote.
proof fn lemma_text_end(b: Seq<char>, tail: Seq<char>, i: int)
    requires
        0 <= i <= b.len(),
        quotable(b),
    ensures
        text_end(b + seq!['"'] + tail, i) == b.len(),
    decreases b.len() - i,
{
    let s = b + seq!['"'] + tail;
    if i < b.len() {
        assert(s[i] == b[i]);
        lemma_text_end(b, tail, i + 1);
    } else {
        assert(s[i] == '"');
    }
}

/// A word before a text that parts it from the rest is one piece.
proof fn lemma_lex_word(w: Seq<char>, tail: Seq<char>)
    requires
        w.len() > 0,
        forall|k: int| 0 <= k < w.len() ==> plain(#[trigger] w[k]),
        parting(tail),
    ensures
        lex(w + tail, 0) == before(Lexeme::Word(w), lex(tail, 0)),
{
    let s = w + tail;
    assert(s[0] == w[0]);
    lemma_word_end(w, tail, 0);
    assert(s.subrange(0, w.len() as int) =~= w);
    lemma_lex_shift(s, w.len() as int);
    assert(s.skip(w.len() as int) =~= tail);
}

/// A comment between its double quotes is one piece.
proof fn lemma_lex_text(b: Seq<char>, tail: Seq<char>)
    requires
        quotable(b),
    ensures
        lex(seq!['"'] + b + seq!['"'] + tail, 0) == before(Lexeme::Text(b), lex(tail, 0)),
{
    let s = seq!['"'] + b + seq!['"'] + tail;
    let inner = b + seq!['"'] + tail;
    assert(s[0] == '"');
    assert(s.skip(1) =~= inner);
    lemma_end_shift(s, 1);
    lemma_text_end(b, tail, 0);
    let j = text_end(s, 1);
    assert(j == b.len() + 1);
    assert(s.subrange(1, j) =~= b);
    lemma_lex_shift(s, j + 1);
    assert(s.skip(j + 1) =~= tail);
}

/// A bracket is one piece, and a blank is none.
proof fn lemma_lex_mark(c: char, tail: Seq<char>)
    requires
        c == '[' || c == ']' || blank(c),
    ensures
        lex(seq![c] + tail, 0) == if c == '[' {
            before(Lexeme::Open, lex(tail, 0))
        } else if c == ']' {
            before(Lexeme::Close, lex(tail, 0))
        } else {
            lex(tail, 0)
        },
{
    let s = seq![c] + tail;
    assert(s[0] == c);
    lemma_lex_shift(s, 1);
    assert(s.skip(1) =~= tail);
}

/// The name of a combinator is a word that names the combinator.
pub proof fn lemma_keywords(c: Constant)
    ensures
        keyword(c).len() > 0,
        forall|k: int| 0 <= k < keyword(c).len() ==> plain(#[trigger] keyword(c)[k]),
        named(keyword(c)) == Some(c),
{
    reveal_strlit("apply");
    reveal_strlit("quote");
    reveal_strlit("compose");
    reveal_strlit("copy");
    reveal_strlit("drop");
    reveal_strlit("swap");
    reveal_strlit("shift");
    reveal_strlit("reset");
    reveal_strlit("bang");
    let a = "apply"@;
    let q = "quote"@;
    let m = "compose"@;
    let y = "copy"@;
    let d = "drop"@;
    let w = "swap"@;
    let h = "shift"@;
    let r = "reset"@;
    let b = "bang"@;
    assert(a[0] == 'a' && q[0] == 'q' && m[0] == 'c' && y[0] == 'c' && d[0] == 'd' && w[0] == 's'
        && h[0] == 's' && r[0] == 'r' && b[0] == 'b');
    assert(a[1] == 'p' && b[1] == 'a' && w[1] == 'w' && h[1] == 'h');
    assert(m.len() == 7 && y.len() == 4);
}

/// The steps of a term as they read back: every quotation holds the steps
/// of its body, joined to the left.
pub open spec fn steps(t: Term) -> Seq<Term>
    decreases t,
{
    match t {
        Term::Identity => Seq::empty(),
        Term::Sequence(a, b) => steps(*a) + steps(*b),
        Term::Quote(b) => seq![Term::Quote(Box::new(assemble(steps(*b))))],
        _ => seq![t],
    }
}

/// The pieces of the text of a term.
pub open spec fn pieces(t: Term) -> Seq<Lexeme>
    decreases t,
{
    match t {
        Term::Identity => Seq::empty(),
        Term::Constant(c) => seq![Lexeme::Word(keyword(c))],
        Term::Variable(n) => seq![Lexeme::Word(n)],
        Term::Comment(b) => seq![Lexeme::Text(b)],
        Term::Quote(b) => seq![Lexeme::Open] + pieces(*b) + seq![Lexeme::Close],
        Term::Sequence(a, b) => pieces(*a) + pieces(*b),
    }
}

/// The text of a term is taken apart into the pieces of the term.
proof fn lemma_lex_print(t: Term, tail: Seq<char>)
    requires
        printable(t),
        parting(tail),
    ensures
        lex(print(t) + tail, 0) == glue(pieces(t), lex(tail, 0)),
    decreases t,
{
    let rest = lex(tail, 0);
    match t {
        Term::Identity => {
            assert(print(t) + tail =~= tail);
            if rest is Some {
                assert(pieces(t) + rest->Some_0 =~= rest->Some_0);
            }
        },
        Term::Constant(c) => {
            lemma_keywords(c);
            lemma_lex_word(keyword(c), tail);
            if rest is Some {
                assert(pieces(t) + rest->Some_0 =~= seq![Lexeme::Word(keyword(c))] + rest->Some_0);
            }
        },
        Term::Variable(n) => {
            lemma_lex_word(n, tail);
        },
        Term::Comment(b) => {
            lemma_lex_text(b, tail);
        },
        Term::Quote(b) => {
            let inner = print(*b) + (seq![']'] + tail);
            assert(print(t) + tail =~= seq!['['] + inner);
            lemma_lex_mark('[', inner);
            lemma_lex_print(*b, seq![']'] + tail);
            lemma_lex_mark(']', tail);
            if rest is Some {
                let r = rest->Some_0;
                assert(seq![Lexeme::Open] + (pieces(*b) + (seq![Lexeme::Close] + r)) =~= pieces(t)
                    + r);
            }
        },
        Term::Sequence(a, b) => {
            let second = print(*b) + tail;
            let inner = print(*a) + (seq![' '] + second);
            assert(print(t) + tail =~= inner);
            lemma_lex_print(*a, seq![' '] + second);
            lemma_lex_mark(' ', second);
            lemma_lex_print(*b, tail);
            if rest is Some {
                let r = rest->Some_0;
                assert(pieces(*a) + (pieces(*b) + r) =~= pieces(t) + r);
            }
        },
    }
}

/// The steps and the end of pieces that begin `i` pieces further on.
pub open spec fn raise(r: Option<(Seq<Term>, int)>, i: int) -> Option<(Seq<Term>, int)> {
    match r {
        Some((x, k)) => Some((x, k + i)),
        None => None,
    }
}

/// The steps from a piece on depend on the pieces from there on only.
proof fn lemma_nest_shift(ls: Seq<Lexeme>, i: int, inside: bool)
    requires
        0 <= i <= ls.len(),
    ensures
        nest(ls, i, inside) == raise(nest(ls.skip(i), 0, inside), i),
    decreases ls.len() - i,
{
    if i < ls.len() {
        let t = ls.skip(i);
        assert(t[0] == ls[i]);
        assert(t.skip(1) =~= ls.skip(i + 1));
        match ls[i] {
            Lexeme::Close => {},
            Lexeme::Open => {
                lemma_nest_shift(ls, i + 1, true);
                lemma_nest_shift(t, 1, true);
                let low = nest(ls.skip(i + 1), 0, true);
                if low is Some {
                    let j = low->Some_0.1 + i + 1;
                    if i < j <= ls.len() {
                        lemma_nest_shift(ls, j, inside);
                        lemma_nest_shift(t, j - i, inside);
                        assert(t.skip(j - i) =~= ls.skip(j));
                    }
                }
            },
            _ => {
                lemma_nest_shift(ls, i + 1, inside);
                lemma_nest_shift(t, 1, inside);
            },
        }
    }
}

/// The steps `st`, made of `n` pieces, before what follows them.
pub open spec fn follow(st: Seq<Term>, n: int, r: Option<(Seq<Term>, int)>) -> Option<
    (Seq<Term>, int),
> {
    match r {
        Some((x, k)) => Some((st + x, k + n)),
        None => None,
    }
}

/// The pieces of a term stand for the steps of the term.
proof fn lemma_nest_pieces(t: Term, rest: Seq<Lexeme>, inside: bool)
    requires
        printable(t),
    ensures
        nest(pieces(t) + rest, 0, inside) == follow(
            steps(t),
            pieces(t).len() as int,
            nest(rest, 0, inside),
        ),
    decreases t,
{
    let ls = pieces(t) + rest;
    let after = nest(rest, 0, inside);
    match t {
        Term::Identity => {
            assert(ls =~= rest);
            if after is Some {
                assert(steps(t) + after->Some_0.0 =~= after->Some_0.0);
            }
        },
        Term::Quote(b) => {
            let pb = pieces(*b);
            let n = pb.len() as int;
            let close = seq![Lexeme::Close] + rest;
            assert(ls =~= seq![Lexeme::Open] + (pb + close));
            assert(ls[0] == Lexeme::Open);
            assert(ls.skip(1) =~= pb + close);
            lemma_nest_shift(ls, 1, true);
            lemma_nest_pieces(*b, close, true);
            assert(close[0] == Lexeme::Close);
            assert(nest(close, 0, true) == Some((Seq::<Term>::empty(), 1int)));
            assert(steps(*b) + Seq::<Term>::empty() =~= steps(*b));
            assert(nest(ls, 1, true) == Some((steps(*b), n + 2)));
            lemma_nest_shift(ls, n + 2, inside);
            assert(ls.skip(n + 2) =~= rest);
        },
        Term::Sequence(a, b) => {
            let pa = pieces(*a);
            let pb = pieces(*b);
            assert(ls =~= pa + (pb + rest));
            lemma_nest_pieces(*a, pb + rest, inside);
            lemma_nest_pieces(*b, rest, inside);
            if after is Some {
                assert(steps(*a) + (steps(*b) + after->Some_0.0) =~= steps(t) + after->Some_0.0);
            }
        },
        _ => {
            let x = pieces(t)[0];
            assert(ls[0] == x);
            assert(ls.skip(1) =~= rest);
            lemma_nest_shift(ls, 1, inside);
            match t {
                Term::Constant(c) => {
                    lemma_keywords(c);
                },
                _ => {},
            }
            assert(leaf(x) == t);
        },
    }
}

/// What is written reads back: the text of a term that can be written
/// stands for the term with its steps joined to the left, in every
/// quotation too.
pub proof fn law_print_parse(t: Term)
    requires
        printable(t),
    ensures
        parse(print(t)) == Some(assemble(steps(t))),
{
    let none = Seq::<char>::empty();
    lemma_lex_print(t, none);
    assert(print(t) + none =~= print(t));
    assert(pieces(t) + Seq::<Lexeme>::empty() =~= pieces(t));
    lemma_nest_pieces(t, Seq::<Lexeme>::empty(), false);
    assert(steps(t) + Seq::<Term>::empty() =~= steps(t));
}

} // verus!
