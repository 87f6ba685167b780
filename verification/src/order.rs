//! Three-way comparison and the lexicographic orders that the listing sorts by.

use vstd::prelude::*;

verus! {

/// The outcome of comparing two values.
#[derive(Clone, Copy, Debug, PartialEq, Eq, Structural)]
pub enum Order {
    Less,
    Equal,
    Greater,
}

impl Order {
    /// The same comparison seen from the other side.
    pub open spec fn flip(self) -> Order {
        match self {
            Order::Less => Order::Greater,
            Order::Equal => Order::Equal,
            Order::Greater => Order::Less,
        }
    }
}

/// Compares two integers.
pub open spec fn int_order(a: int, b: int) -> Order {
    if a < b {
        Order::Less
    } else if a == b {
        Order::Equal
    } else {
        Order::Greater
    }
}

/// Lexicographic order on integer sequences; a proper prefix comes first.
pub open spec fn lex_ints(a: Seq<int>, b: Seq<int>) -> Order
    decreases a.len(),
{
    if a.len() == 0 {
        if b.len() == 0 {
            Order::Equal
        } else {
            Order::Less
        }
    } else if b.len() == 0 {
        Order::Greater
    } else if a[0] < b[0] {
        Order::Less
    } else if a[0] > b[0] {
        Order::Greater
    } else {
        lex_ints(a.drop_first(), b.drop_first())
    }
}

/// Lexicographic order on sequences of fields, each field ordered by `lex_ints`.
pub open spec fn lex_fields(a: Seq<Seq<int>>, b: Seq<Seq<int>>) -> Order
    decreases a.len(),
{
    if a.len() == 0 {
        if b.len() == 0 {
            Order::Equal
        } else {
            Order::Less
        }
    } else if b.len() == 0 {
        Order::Greater
    } else {
        match lex_ints(a[0], b[0]) {
            Order::Equal => lex_fields(a.drop_first(), b.drop_first()),
            o => o,
        }
    }
}

/// Fields compared in descending order, ties broken by `la`/`lb` in ascending order.
pub open spec fn desc_then_asc(fa: Seq<Seq<int>>, la: Seq<int>, fb: Seq<Seq<int>>, lb: Seq<int>) -> Order {
    match lex_fields(fb, fa) {
        Order::Equal => lex_ints(la, lb),
        o => o,
    }
}

/// Exchanging the sides flips `lex_ints`.
pub proof fn lemma_lex_ints_flip(a: Seq<int>, b: Seq<int>)
    ensures
        lex_ints(a, b) == lex_ints(b, a).flip(),
    decreases a.len(),
{
    if a.len() > 0 && b.len() > 0 && a[0] == b[0] {
        lemma_lex_ints_flip(a.drop_first(), b.drop_first());
    }
}

/// `lex_ints` finds two sequences equal exactly when they are.
pub proof fn lemma_lex_ints_equal(a: Seq<int>, b: Seq<int>)
    ensures
        (lex_ints(a, b) == Order::Equal) == (a == b),
    decreases a.len(),
{
    if a.len() == 0 && b.len() == 0 {
        assert(a =~= b);
    }
    if a.len() > 0 && b.len() > 0 && a[0] == b[0] {
        lemma_lex_ints_equal(a.drop_first(), b.drop_first());
        if a.drop_first() == b.drop_first() {
            assert(a =~= seq![a[0]] + a.drop_first());
            assert(b =~= seq![b[0]] + b.drop_first());
        }
    }
}

/// `lex_ints` is transitive.
pub proof fn lemma_lex_ints_trans(a: Seq<int>, b: Seq<int>, c: Seq<int>)
    requires
        lex_ints(a, b) != Order::Greater,
        lex_ints(b, c) != Order::Greater,
    ensures
        lex_ints(a, c) != Order::Greater,
    decreases a.len(),
{
    if a.len() > 0 && b.len() > 0 && c.len() > 0 && a[0] == b[0] && b[0] == c[0] {
        lemma_lex_ints_trans(a.drop_first(), b.drop_first(), c.drop_first());
    }
}

/// Exchanging the sides flips `lex_fields`.
pub proof fn lemma_lex_fields_flip(a: Seq<Seq<int>>, b: Seq<Seq<int>>)
    ensures
        lex_fields(a, b) == lex_fields(b, a).flip(),
    decreases a.len(),
{
    if a.len() > 0 && b.len() > 0 {
        lemma_lex_ints_flip(a[0], b[0]);
        lemma_lex_fields_flip(a.drop_first(), b.drop_first());
    }
}

/// `lex_fields` finds two field lists equal exactly when they are.
pub proof fn lemma_lex_fields_equal(a: Seq<Seq<int>>, b: Seq<Seq<int>>)
    ensures
        (lex_fields(a, b) == Order::Equal) == (a == b),
    decreases a.len(),
{
    if a.len() == 0 && b.len() == 0 {
        assert(a =~= b);
    }
    if a.len() > 0 && b.len() > 0 {
        lemma_lex_ints_equal(a[0], b[0]);
        lemma_lex_fields_equal(a.drop_first(), b.drop_first());
        if a[0] == b[0] && a.drop_first() == b.drop_first() {
            assert(a =~= seq![a[0]] + a.drop_first());
            assert(b =~= seq![b[0]] + b.drop_first());
        }
    }
}

/// `lex_fields` is transitive.
pub proof fn lemma_lex_fields_trans(a: Seq<Seq<int>>, b: Seq<Seq<int>>, c: Seq<Seq<int>>)
    requires
        lex_fields(a, b) != Order::Greater,
        lex_fields(b, c) != Order::Greater,
    ensures
        lex_fields(a, c) != Order::Greater,
    decreases a.len(),
{
    if a.len() > 0 && b.len() > 0 && c.len() > 0 {
        lemma_lex_ints_equal(a[0], b[0]);
        lemma_lex_ints_equal(b[0], c[0]);
        lemma_lex_ints_equal(a[0], c[0]);
        lemma_lex_ints_flip(a[0], c[0]);
        lemma_lex_ints_flip(a[0], b[0]);
        lemma_lex_ints_trans(a[0], b[0], c[0]);
        if lex_ints(a[0], b[0]) == Order::Equal && lex_ints(b[0], c[0]) == Order::Equal {
            lemma_lex_fields_trans(a.drop_first(), b.drop_first(), c.drop_first());
        } else if lex_ints(a[0], c[0]) == Order::Equal {
            // a[0] == c[0] with a[0] <= b[0] <= c[0] forces both steps to be equal
            lemma_lex_ints_trans(b[0], c[0], a[0]);
        }
    }
}

/// `desc_then_asc` flips when its two sides are exchanged.
pub proof fn lemma_desc_then_asc_flip(fa: Seq<Seq<int>>, la: Seq<int>, fb: Seq<Seq<int>>, lb: Seq<int>)
    ensures
        desc_then_asc(fa, la, fb, lb) == desc_then_asc(fb, lb, fa, la).flip(),
{
    lemma_lex_fields_flip(fa, fb);
    lemma_lex_ints_flip(la, lb);
}

/// `desc_then_asc` is transitive.
pub proof fn lemma_desc_then_asc_trans(
    fa: Seq<Seq<int>>,
    la: Seq<int>,
    fb: Seq<Seq<int>>,
    lb: Seq<int>,
    fc: Seq<Seq<int>>,
    lc: Seq<int>,
)
    requires
        desc_then_asc(fa, la, fb, lb) != Order::Greater,
        desc_then_asc(fb, lb, fc, lc) != Order::Greater,
    ensures
        desc_then_asc(fa, la, fc, lc) != Order::Greater,
{
    lemma_lex_fields_equal(fb, fa);
    lemma_lex_fields_equal(fc, fb);
    lemma_lex_fields_equal(fc, fa);
    lemma_lex_fields_flip(fc, fa);
    lemma_lex_fields_flip(fb, fa);
    lemma_lex_fields_trans(fc, fb, fa);
    if lex_fields(fb, fa) == Order::Equal && lex_fields(fc, fb) == Order::Equal {
        lemma_lex_ints_trans(la, lb, lc);
    } else if lex_fields(fc, fa) == Order::Equal {
        lemma_lex_fields_trans(fb, fa, fc);
    }
}

/// The integers a vector of `i128` holds.
pub open spec fn ints(v: Seq<i128>) -> Seq<int> {
    v.map_values(|x: i128| x as int)
}

/// The fields a vector of vectors holds.
pub open spec fn fields(v: Seq<Vec<i128>>) -> Seq<Seq<int>> {
    v.map_values(|w: Vec<i128>| ints(w@))
}

/// Compares two integer vectors lexicographically.
pub fn compare_ints(a: &Vec<i128>, b: &Vec<i128>) -> (r: Order)
    ensures
        r == lex_ints(ints(a@), ints(b@)),
{
    let n = if a.len() < b.len() { a.len() } else { b.len() };
    let mut i: usize = 0;
    assert(ints(a@).skip(0) =~= ints(a@));
    assert(ints(b@).skip(0) =~= ints(b@));
    while i < n
        invariant
            n == if a@.len() < b@.len() { a@.len() } else { b@.len() },
            0 <= i <= n,
            lex_ints(ints(a@), ints(b@)) == lex_ints(ints(a@).skip(i as int), ints(b@).skip(i as int)),
        decreases n - i,
    {
        let x = a[i];
        let y = b[i];
        assert(ints(a@).skip(i as int)[0] == x as int);
        assert(ints(b@).skip(i as int)[0] == y as int);
        if x < y {
            return Order::Less;
        }
        if x > y {
            return Order::Greater;
        }
        assert(ints(a@).skip(i as int).drop_first() =~= ints(a@).skip(i + 1));
        assert(ints(b@).skip(i as int).drop_first() =~= ints(b@).skip(i + 1));
        i = i + 1;
    }
    if a.len() < b.len() {
        Order::Less
    } else if a.len() == b.len() {
        Order::Equal
    } else {
        Order::Greater
    }
}

/// Compares two vectors of fields lexicographically.
pub fn compare_fields(a: &Vec<Vec<i128>>, b: &Vec<Vec<i128>>) -> (r: Order)
    ensures
        r == lex_fields(fields(a@), fields(b@)),
{
    let n = if a.len() < b.len() { a.len() } else { b.len() };
    let mut i: usize = 0;
    assert(fields(a@).skip(0) =~= fields(a@));
    assert(fields(b@).skip(0) =~= fields(b@));
    while i < n
        invariant
            n == if a@.len() < b@.len() { a@.len() } else { b@.len() },
            0 <= i <= n,
            lex_fields(fields(a@), fields(b@)) == lex_fields(
                fields(a@).skip(i as int),
                fields(b@).skip(i as int),
            ),
        decreases n - i,
    {
        let o = compare_ints(&a[i], &b[i]);
        assert(fields(a@).skip(i as int)[0] == ints(a@[i as int]@));
        assert(fields(b@).skip(i as int)[0] == ints(b@[i as int]@));
        match o {
            Order::Equal => {},
            _ => {
                return o;
            },
        }
        assert(fields(a@).skip(i as int).drop_first() =~= fields(a@).skip(i + 1));
        assert(fields(b@).skip(i as int).drop_first() =~= fields(b@).skip(i + 1));
        i = i + 1;
    }
    if a.len() < b.len() {
        Order::Less
    } else if a.len() == b.len() {
        Order::Equal
    } else {
        Order::Greater
    }
}

} // verus!
