//! Putting archive entries in name order, the way the archive lists them.
use vstd::prelude::*;
use crate::text::to_chars;

verus! {

/// `a` comes before `b` or equals it, comparing character by character by
/// code point, a prefix first (the order of `str`'s comparison).
pub open spec fn lex_le(a: Seq<char>, b: Seq<char>) -> bool
    decreases a.len(),
{
    if a.len() == 0 {
        true
    } else if b.len() == 0 {
        false
    } else if a[0] == b[0] {
        lex_le(a.drop_first(), b.drop_first())
    } else {
        (a[0] as u32) < (b[0] as u32)
    }
}

proof fn lemma_char_code_injective(x: char, y: char)
    ensures
        x != y ==> (x as u32) != (y as u32),
{
    vstd::utf8::char_u32_cast(x, x as u32);
    vstd::utf8::char_u32_cast(y, y as u32);
}

/// Any two names are ordered one way or the other.
pub proof fn lemma_lex_total(a: Seq<char>, b: Seq<char>)
    ensures
        lex_le(a, b) || lex_le(b, a),
    decreases a.len(),
{
    if a.len() > 0 && b.len() > 0 {
        if a[0] == b[0] {
            lemma_lex_total(a.drop_first(), b.drop_first());
        } else {
            lemma_char_code_injective(a[0], b[0]);
        }
    }
}

/// The name order is transitive.
pub proof fn lemma_lex_trans(a: Seq<char>, b: Seq<char>, c: Seq<char>)
    requires
        lex_le(a, b),
        lex_le(b, c),
    ensures
        lex_le(a, c),
    decreases a.len(),
{
    if a.len() > 0 && b.len() > 0 && c.len() > 0 {
        if a[0] == b[0] && b[0] == c[0] {
            lemma_lex_trans(a.drop_first(), b.drop_first(), c.drop_first());
        } else {
            lemma_char_code_injective(a[0], c[0]);
        }
    }
}

/// Names that come before each other are equal.
pub proof fn lemma_lex_antisym(a: Seq<char>, b: Seq<char>)
    requires
        lex_le(a, b),
        lex_le(b, a),
    ensures
        a == b,
    decreases a.len(),
{
    if a.len() > 0 && b.len() > 0 {
        lemma_lex_antisym(a.drop_first(), b.drop_first());
        assert(a =~= seq![a[0]] + a.drop_first());
        assert(b =~= seq![b[0]] + b.drop_first());
    } else if a.len() == 0 && b.len() == 0 {
        assert(a =~= b);
    }
}

/// A name comes before every name that begins with it.
pub proof fn lemma_prefix_first(a: Seq<char>, b: Seq<char>)
    requires
        crate::text::starts_with(b, a),
    ensures
        lex_le(a, b),
    decreases a.len(),
{
    if a.len() > 0 {
        assert(b.subrange(0, a.len() as int)[0] == b[0]);
        assert(b.drop_first().subrange(0, a.len() - 1) =~= b.subrange(0, a.len() as int).drop_first());
        lemma_prefix_first(a.drop_first(), b.drop_first());
    }
}

/// Whether `a` comes before `b` or equals it in name order.
pub fn name_le(a: &str, b: &str) -> (r: bool)
    ensures
        r == lex_le(a@, b@),
{
    let x = to_chars(a);
    let y = to_chars(b);
    let mut i: usize = 0;
    assert(x@.skip(0) =~= x@);
    assert(y@.skip(0) =~= y@);
    while i < x.len() && i < y.len() && x[i] == y[i]
        invariant
            i <= x.len(),
            i <= y.len(),
            lex_le(x@, y@) == lex_le(x@.skip(i as int), y@.skip(i as int)),
        decreases x.len() - i,
    {
        assert(x@.skip(i as int).drop_first() =~= x@.skip(i + 1));
        assert(y@.skip(i as int).drop_first() =~= y@.skip(i + 1));
        i += 1;
    }
    if i == x.len() {
        true
    } else if i == y.len() {
        false
    } else {
        (x[i] as u32) < (y[i] as u32)
    }
}

/// An entry to be archived: where it is found, its name inside the archive,
/// and whether it is a folder.
pub type Entry<T> = (T, String, bool);

/// The entries of `s` named `k`, in order.
pub open spec fn named<T>(s: Seq<Entry<T>>, k: Seq<char>) -> Seq<Entry<T>>
    decreases s.len(),
{
    if s.len() == 0 {
        s
    } else {
        let r = named(s.drop_last(), k);
        if s.last().1@ == k {
            r.push(s.last())
        } else {
            r
        }
    }
}

/// The entries of `s` are in name order.
pub open spec fn sorted_by_name<T>(s: Seq<Entry<T>>) -> bool {
    forall|i: int, j: int| 0 <= i < j < s.len() ==> lex_le(#[trigger] s[i].1@, #[trigger] s[j].1@)
}

/// In name order an entry comes before every entry whose name extends its
/// own, such as a folder before the entries inside it.
pub proof fn lemma_sorted_prefix_first<T>(s: Seq<Entry<T>>, i: int, j: int)
    requires
        sorted_by_name(s),
        0 <= i < s.len(),
        0 <= j < s.len(),
        crate::text::starts_with(s[j].1@, s[i].1@),
        s[i].1@ != s[j].1@,
    ensures
        i < j,
{
    if j < i {
        assert(lex_le(s[j].1@, s[i].1@));
        lemma_prefix_first(s[i].1@, s[j].1@);
        lemma_lex_antisym(s[i].1@, s[j].1@);
    }
}

proof fn lemma_named_append<T>(a: Seq<Entry<T>>, b: Seq<Entry<T>>, k: Seq<char>)
    ensures
        named(a + b, k) == named(a, k) + named(b, k),
    decreases b.len(),
{
    if b.len() == 0 {
        assert(a + b =~= a);
        assert(named(a, k) + named(b, k) =~= named(a, k));
    } else {
        lemma_named_append(a, b.drop_last(), k);
        assert((a + b).drop_last() =~= a + b.drop_last());
        assert((a + b).last() == b.last());
        if b.last().1@ == k {
            assert(named(a, k) + named(b.drop_last(), k).push(b.last()) =~= (named(a, k) + named(
                b.drop_last(),
                k,
            )).push(b.last()));
        }
    }
}

proof fn lemma_named_none<T>(s: Seq<Entry<T>>, k: Seq<char>)
    requires
        forall|i: int| 0 <= i < s.len() ==> s[i].1@ != k,
    ensures
        named(s, k) == Seq::<Entry<T>>::empty(),
    decreases s.len(),
{
    if s.len() > 0 {
        lemma_named_none(s.drop_last(), k);
    }
}

/// `v` taken apart from its end: the elements in reverse order.
fn reversed<T>(v: Vec<Entry<T>>) -> (r: Vec<Entry<T>>)
    ensures
        r@ == v@.reverse(),
{
    let ghost orig = v@;
    let mut v = v;
    let mut r: Vec<Entry<T>> = Vec::new();
    while v.len() > 0
        invariant
            orig == v@ + r@.reverse(),
        decreases v.len(),
    {
        let ghost before = v@;
        let x = v.pop().unwrap();
        proof {
            assert(before =~= v@.push(x));
        }
        r.push(x);
        assert(r@.reverse() =~= seq![x] + r@.drop_last().reverse());
    }
    assert(v@ + r@.reverse() =~= r@.reverse());
    assert(r@.reverse().reverse() =~= r@);
    r
}


proof fn lemma_lex_refl(a: Seq<char>)
    ensures
        lex_le(a, a),
    decreases a.len(),
{
    if a.len() > 0 {
        lemma_lex_refl(a.drop_first());
    }
}

/// Merges two name-ordered runs into one; of two entries with the same name
/// the one from `left` comes first.
fn merge<T>(left: Vec<Entry<T>>, right: Vec<Entry<T>>) -> (m: Vec<Entry<T>>)
    requires
        sorted_by_name(left@),
        sorted_by_name(right@),
    ensures
        sorted_by_name(m@),
        m@.len() == left@.len() + right@.len(),
        forall|k: Seq<char>| #[trigger] named(m@, k) == named(left@, k) + named(right@, k),
{
    let ghost l0 = left@;
    let ghost r0 = right@;
    let nl = left.len();
    let nr = right.len();
    let mut ls = reversed(left);
    let mut rs = reversed(right);
    let mut m: Vec<Entry<T>> = Vec::new();
    proof {
        assert(l0.subrange(0, nl as int) =~= l0);
        assert(r0.subrange(0, nr as int) =~= r0);
        assert forall|k: Seq<char>| #[trigger] named(m@, k) == named(l0.take(0), k) + named(r0.take(0), k) by {
            assert(l0.take(0) =~= Seq::<Entry<T>>::empty());
            assert(r0.take(0) =~= Seq::<Entry<T>>::empty());
            assert(named(m@, k) + named(m@, k) =~= named(m@, k));
        }
    }
    while ls.len() > 0 || rs.len() > 0
        invariant
            ls.len() <= nl == l0.len(),
            rs.len() <= nr == r0.len(),
            sorted_by_name(l0),
            sorted_by_name(r0),
            ls@ == l0.subrange(nl - ls.len(), nl as int).reverse(),
            rs@ == r0.subrange(nr - rs.len(), nr as int).reverse(),
            m@.len() == (nl - ls.len()) + (nr - rs.len()),
            sorted_by_name(m@),
            forall|k: Seq<char>| #[trigger] named(m@, k) == named(l0.take(nl - ls.len()), k) + named(
                r0.take(nr - rs.len()),
                k,
            ),
            m@.len() > 0 && ls.len() > 0 ==> lex_le(m@.last().1@, l0[nl - ls.len()].1@),
            m@.len() > 0 && rs.len() > 0 ==> lex_le(m@.last().1@, r0[nr - rs.len()].1@),
            forall|p: int, q: int|
                0 <= p < nr - rs.len() && nl - ls.len() <= q < nl ==> !lex_le(
                    #[trigger] l0[q].1@,
                    #[trigger] r0[p].1@,
                ),
        decreases ls.len() + rs.len(),
    {
        let i = nl - ls.len();
        let j = nr - rs.len();
        let take_left = if rs.len() == 0 {
            true
        } else if ls.len() == 0 {
            false
        } else {
            name_le(ls[ls.len() - 1].1.as_str(), rs[rs.len() - 1].1.as_str())
        };
        let ghost before = m@;
        if take_left {
            proof {
                assert(ls@.last() == l0[i as int]);
            }
            let x = ls.pop().unwrap();
            proof {
                assert(ls@ =~= l0.subrange(i + 1, nl as int).reverse());
                if rs.len() > 0 {
                    assert(rs@.last() == r0[j as int]);
                    // x comes before (or with) the front of the right run
                }
                // every entry of the right run taken so far is strictly before x
                assert forall|p: int| 0 <= p < j implies r0[p].1@ != x.1@ by {
                    lemma_lex_refl(x.1@);
                    assert(!lex_le(l0[i as int].1@, r0[p].1@));
                }
            }
            m.push(x);
            proof {
                assert(l0.take(i + 1) =~= l0.take(i as int).push(x));
                assert forall|k: Seq<char>| #[trigger] named(m@, k) == named(l0.take(i + 1), k) + named(
                    r0.take(j as int),
                    k,
                ) by {
                    assert(m@.drop_last() =~= before);
                    assert(l0.take(i + 1).drop_last() =~= l0.take(i as int));
                    assert(named(before, k) == named(l0.take(i as int), k) + named(r0.take(j as int), k));
                    if x.1@ == k {
                        assert forall|p: int| 0 <= p < r0.take(j as int).len() implies r0.take(j as int)[p].1@ != k by {
                            assert(r0.take(j as int)[p] == r0[p]);
                        }
                        lemma_named_none(r0.take(j as int), k);
                        assert(named(m@, k) =~= named(l0.take(i + 1), k) + named(r0.take(j as int), k));
                    }
                }
                assert forall|a: int, b: int| 0 <= a < b < m@.len() implies lex_le(#[trigger] m@[a].1@, #[trigger] m@[b].1@) by {
                    if b == m@.len() - 1 && a < before.len() - 1 {
                        lemma_lex_trans(m@[a].1@, before.last().1@, x.1@);
                    }
                }
                if ls.len() > 0 {
                    assert(lex_le(l0[i as int].1@, l0[i + 1].1@));
                }
                if rs.len() > 0 {
                    lemma_lex_total(x.1@, r0[j as int].1@);
                }
            }
        } else {
            proof {
                assert(rs@.last() == r0[j as int]);
            }
            let y = rs.pop().unwrap();
            proof {
                assert(rs@ =~= r0.subrange(j + 1, nr as int).reverse());
                if ls.len() > 0 {
                    assert(ls@.last() == l0[i as int]);
                    lemma_lex_total(l0[i as int].1@, y.1@);
                }
            }
            m.push(y);
            proof {
                assert(r0.take(j + 1) =~= r0.take(j as int).push(y));
                assert forall|k: Seq<char>| #[trigger] named(m@, k) == named(l0.take(i as int), k) + named(
                    r0.take(j + 1),
                    k,
                ) by {
                    assert(m@.drop_last() =~= before);
                    assert(r0.take(j + 1).drop_last() =~= r0.take(j as int));
                    assert(named(before, k) == named(l0.take(i as int), k) + named(r0.take(j as int), k));
                    if y.1@ == k {
                        assert(named(m@, k) =~= named(l0.take(i as int), k) + named(r0.take(j + 1), k));
                    }
                }
                assert forall|a: int, b: int| 0 <= a < b < m@.len() implies lex_le(#[trigger] m@[a].1@, #[trigger] m@[b].1@) by {
                    if b == m@.len() - 1 && a < before.len() - 1 {
                        lemma_lex_trans(m@[a].1@, before.last().1@, y.1@);
                    }
                }
                assert forall|p: int, q: int|
                    0 <= p < j + 1 && i <= q < nl implies !lex_le(#[trigger] l0[q].1@, #[trigger] r0[p].1@) by {
                    if p == j {
                        if lex_le(l0[q].1@, y.1@) {
                            lemma_lex_trans(l0[i as int].1@, l0[q].1@, y.1@);
                        }
                    }
                }
                if rs.len() > 0 {
                    assert(lex_le(r0[j as int].1@, r0[j + 1].1@));
                }
                if ls.len() > 0 {
                    lemma_lex_total(y.1@, l0[i as int].1@);
                }
            }
        }
    }
    proof {
        assert(l0.take(nl as int) =~= l0);
        assert(r0.take(nr as int) =~= r0);
    }
    m
}

/// Puts entries in name order. Entries with the same name keep their
/// order, and no entry is added or lost.
pub fn sort_by_name<T>(v: Vec<Entry<T>>) -> (r: Vec<Entry<T>>)
    ensures
        sorted_by_name(r@),
        r@.len() == v@.len(),
        forall|k: Seq<char>| #[trigger] named(r@, k) == named(v@, k),
    decreases v@.len(),
{
    if v.len() <= 1 {
        return v;
    }
    let ghost whole = v@;
    let mid = v.len() / 2;
    let mut a = v;
    let b = a.split_off(mid);
    proof {
        assert(whole =~= a@ + b@);
    }
    let sa = sort_by_name(a);
    let sb = sort_by_name(b);
    let ghost av = a@;
    let m = merge(sa, sb);
    proof {
        assert forall|k: Seq<char>| #[trigger] named(m@, k) == named(whole, k) by {
            lemma_named_append(av, b@, k);
        }
    }
    m
}

} // verus!
