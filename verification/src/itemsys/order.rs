//! Three-way comparison and the lexicographic order on sequences.
//!
//! Text is ordered by its UTF-8 bytes, lists of text element by element. The
//! lemmas here show that both are total orders, which is what a sorted
//! catalog relies on.

use vstd::prelude::*;
use vstd::utf8::{encode_utf8, encode_utf8_decode_utf8};

verus! {

/// How one value stands to another under a total order.
#[derive(Clone, Copy, Debug, PartialEq, Eq, Structural)]
pub enum Rank {
    Lower,
    Same,
    Higher,
}

impl Rank {
    /// The outcome of the same comparison with its sides exchanged.
    pub open spec fn flip(self) -> Rank {
        match self {
            Rank::Lower => Rank::Higher,
            Rank::Same => Rank::Same,
            Rank::Higher => Rank::Lower,
        }
    }

    /// This outcome, or `next` where this one is a tie.
    pub open spec fn refine(self, next: Rank) -> Rank {
        if self == Rank::Same {
            next
        } else {
            self
        }
    }
}

/// `elem` is a total order whose ties are exactly the equal pairs.
pub open spec fn total_order<X>(elem: spec_fn(X, X) -> Rank) -> bool {
    &&& forall|x: X, y: X| #[trigger] elem(x, y) == Rank::Same <==> x == y
    &&& forall|x: X, y: X| #[trigger] elem(x, y) == elem(y, x).flip()
    &&& forall|x: X, y: X, z: X|
        #[trigger] elem(x, y) == Rank::Lower && #[trigger] elem(y, z) == Rank::Lower ==> elem(x, z)
            == Rank::Lower
}

/// Lexicographic comparison: the first position at which the sequences
/// differ decides, and a proper prefix is lower than its extensions.
pub open spec fn lex_rank<X>(a: Seq<X>, b: Seq<X>, elem: spec_fn(X, X) -> Rank) -> Rank
    decreases a.len(),
{
    if a.len() == 0 {
        if b.len() == 0 {
            Rank::Same
        } else {
            Rank::Lower
        }
    } else if b.len() == 0 {
        Rank::Higher
    } else {
        elem(a[0], b[0]).refine(lex_rank(a.drop_first(), b.drop_first(), elem))
    }
}

/// Comparison of two bytes by their numeric value.
pub open spec fn byte_rank(x: u8, y: u8) -> Rank {
    if x < y {
        Rank::Lower
    } else if x == y {
        Rank::Same
    } else {
        Rank::Higher
    }
}

/// `byte_rank` as a value, to hand to `lex_rank`.
pub open spec fn by_byte() -> spec_fn(u8, u8) -> Rank {
    |x: u8, y: u8| byte_rank(x, y)
}

/// Comparison of two texts: lexicographic over their UTF-8 bytes.
pub open spec fn str_rank(s: Seq<char>, t: Seq<char>) -> Rank {
    lex_rank(encode_utf8(s), encode_utf8(t), by_byte())
}

/// `str_rank` as a value, to hand to `lex_rank`.
pub open spec fn by_str() -> spec_fn(Seq<char>, Seq<char>) -> Rank {
    |s: Seq<char>, t: Seq<char>| str_rank(s, t)
}

/// Comparison of two optional texts: an absent text is lower than any
/// present one.
pub open spec fn opt_str_rank(s: Option<Seq<char>>, t: Option<Seq<char>>) -> Rank {
    match (s, t) {
        (None, None) => Rank::Same,
        (None, Some(_)) => Rank::Lower,
        (Some(_), None) => Rank::Higher,
        (Some(x), Some(y)) => str_rank(x, y),
    }
}

/// Compares two byte strings lexicographically.
pub fn compare_bytes(a: &[u8], b: &[u8]) -> (r: Rank)
    ensures
        r == lex_rank(a@, b@, by_byte()),
{
    let mut i: usize = 0;
    proof {
        assert(a@.skip(0) =~= a@);
        assert(b@.skip(0) =~= b@);
    }
    while i < a.len() && i < b.len()
        invariant
            i <= a.len(),
            i <= b.len(),
            lex_rank(a@, b@, by_byte()) == lex_rank(
                a@.skip(i as int),
                b@.skip(i as int),
                by_byte(),
            ),
        decreases a.len() - i,
    {
        let x = a[i];
        let y = b[i];
        proof {
            assert(a@.skip(i as int).drop_first() =~= a@.skip(i + 1));
            assert(b@.skip(i as int).drop_first() =~= b@.skip(i + 1));
        }
        if x < y {
            return Rank::Lower;
        } else if x > y {
            return Rank::Higher;
        }
        i += 1;
    }
    if i < b.len() {
        Rank::Lower
    } else if i < a.len() {
        Rank::Higher
    } else {
        Rank::Same
    }
}

/// Compares two texts by their UTF-8 bytes.
pub fn compare_str(s: &str, t: &str) -> (r: Rank)
    ensures
        r == str_rank(s@, t@),
{
    compare_bytes(s.as_bytes(), t.as_bytes())
}

/// Two sequences tie lexicographically exactly when they are equal.
pub proof fn lemma_lex_same<X>(a: Seq<X>, b: Seq<X>, elem: spec_fn(X, X) -> Rank)
    requires
        total_order(elem),
    ensures
        lex_rank(a, b, elem) == Rank::Same <==> a == b,
    decreases a.len(),
{
    if a.len() > 0 && b.len() > 0 {
        lemma_lex_same(a.drop_first(), b.drop_first(), elem);
        if lex_rank(a, b, elem) == Rank::Same {
            assert(elem(a[0], b[0]) == Rank::Same);
            assert(a =~= seq![a[0]] + a.drop_first());
            assert(b =~= seq![b[0]] + b.drop_first());
        }
    } else if a.len() == 0 && b.len() == 0 {
        assert(a =~= b);
    }
}

/// Exchanging the sides of a lexicographic comparison flips its outcome.
pub proof fn lemma_lex_flip<X>(a: Seq<X>, b: Seq<X>, elem: spec_fn(X, X) -> Rank)
    requires
        total_order(elem),
    ensures
        lex_rank(a, b, elem) == lex_rank(b, a, elem).flip(),
    decreases a.len(),
{
    if a.len() > 0 && b.len() > 0 {
        lemma_lex_flip(a.drop_first(), b.drop_first(), elem);
        assert(elem(a[0], b[0]) == elem(b[0], a[0]).flip());
    }
}

/// The lexicographic order is transitive.
pub proof fn lemma_lex_trans<X>(a: Seq<X>, b: Seq<X>, c: Seq<X>, elem: spec_fn(X, X) -> Rank)
    requires
        total_order(elem),
        lex_rank(a, b, elem) == Rank::Lower,
        lex_rank(b, c, elem) == Rank::Lower,
    ensures
        lex_rank(a, c, elem) == Rank::Lower,
    decreases a.len(),
{
    if a.len() > 0 {
        let ab = elem(a[0], b[0]);
        let bc = elem(b[0], c[0]);
        assert(elem(a[0], c[0]) == elem(c[0], a[0]).flip());
        if ab == Rank::Same && bc == Rank::Same {
            lemma_lex_trans(a.drop_first(), b.drop_first(), c.drop_first(), elem);
        }
    }
}

/// The lexicographic order over a total order is itself a total order.
pub proof fn lemma_lex_total_order<X>(elem: spec_fn(X, X) -> Rank)
    requires
        total_order(elem),
    ensures
        total_order(|a: Seq<X>, b: Seq<X>| lex_rank(a, b, elem)),
{
    let lex = |a: Seq<X>, b: Seq<X>| lex_rank(a, b, elem);
    assert forall|a: Seq<X>, b: Seq<X>| #[trigger] lex(a, b) == Rank::Same <==> a == b by {
        lemma_lex_same(a, b, elem);
    }
    assert forall|a: Seq<X>, b: Seq<X>| #[trigger] lex(a, b) == lex(b, a).flip() by {
        lemma_lex_flip(a, b, elem);
    }
    assert forall|a: Seq<X>, b: Seq<X>, c: Seq<X>|
        #[trigger] lex(a, b) == Rank::Lower && #[trigger] lex(b, c) == Rank::Lower implies lex(a, c)
        == Rank::Lower by {
        lemma_lex_trans(a, b, c, elem);
    }
}

/// Bytes are totally ordered by their numeric value.
pub proof fn lemma_byte_total_order()
    ensures
        total_order(by_byte()),
{
}

/// Texts are totally ordered by their UTF-8 bytes; in particular two texts
/// tie only when they are the same text.
pub proof fn lemma_str_total_order()
    ensures
        total_order(by_str()),
{
    let elem = by_str();
    lemma_byte_total_order();
    assert forall|s: Seq<char>, t: Seq<char>| #[trigger] elem(s, t) == Rank::Same <==> s == t by {
        lemma_lex_same(encode_utf8(s), encode_utf8(t), by_byte());
        encode_utf8_decode_utf8(s);
        encode_utf8_decode_utf8(t);
    }
    assert forall|s: Seq<char>, t: Seq<char>| #[trigger] elem(s, t) == elem(t, s).flip() by {
        lemma_lex_flip(encode_utf8(s), encode_utf8(t), by_byte());
    }
    assert forall|s: Seq<char>, t: Seq<char>, u: Seq<char>|
        #[trigger] elem(s, t) == Rank::Lower && #[trigger] elem(t, u) == Rank::Lower implies elem(
        s,
        u,
    ) == Rank::Lower by {
        lemma_lex_trans(encode_utf8(s), encode_utf8(t), encode_utf8(u), by_byte());
    }
}

} // verus!
