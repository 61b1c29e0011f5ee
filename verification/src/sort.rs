//! Sorting by a rank.

use vstd::multiset::Multiset;
use vstd::prelude::*;

verus! {

/// Values that have a rank: a total order in which several values may share a
/// place.
pub trait Ranked: Sized {
    /// Whether this value's place is not after the other's.
    spec fn ranks(&self, other: &Self) -> bool;

    fn no_later(&self, other: &Self) -> (r: bool)
        ensures
            r == self.ranks(other),
    ;

    proof fn ranks_total(a: &Self, b: &Self)
        ensures
            a.ranks(b) || b.ranks(a),
    ;

    proof fn ranks_transitive(a: &Self, b: &Self, c: &Self)
        requires
            a.ranks(b),
            b.ranks(c),
        ensures
            a.ranks(c),
    ;
}

/// Whether a sequence is in the order of its ranks.
pub open spec fn in_order<T: Ranked>(s: Seq<T>) -> bool {
    forall|i: int, j: int| 0 <= i < j < s.len() ==> (#[trigger] s[i]).ranks(#[trigger] &s[j])
}

/// Whether the last values come first.
spec fn in_reverse<T: Ranked>(s: Seq<T>) -> bool {
    forall|i: int, j: int| 0 <= i < j < s.len() ==> (#[trigger] s[j]).ranks(#[trigger] &s[i])
}

/// Whether no value of the first sequence has its place after one of the
/// second.
spec fn all_rank<T: Ranked>(a: Seq<T>, b: Seq<T>) -> bool {
    forall|i: int, j: int|
        0 <= i < a.len() && 0 <= j < b.len() ==> (#[trigger] a[i]).ranks(#[trigger] &b[j])
}

/// Puts values in the order of their ranks.
pub fn sorted<T: Ranked>(v: Vec<T>) -> (r: Vec<T>)
    ensures
        in_order(r@),
        r@.to_multiset() == v@.to_multiset(),
        r@.len() == v@.len(),
    decreases v@.len(),
{
    let mut left = v;
    if left.len() <= 1 {
        return left;
    }
    let ghost whole = left@;
    let middle: usize = left.len() / 2;
    let right = left.split_off(middle);
    proof {
        assert(whole =~= left@ + right@);
        vstd::seq_lib::lemma_multiset_commutative(left@, right@);
    }
    let left = sorted(left);
    let right = sorted(right);
    merge(left, right)
}

fn merge<T: Ranked>(a: Vec<T>, b: Vec<T>) -> (r: Vec<T>)
    requires
        in_order(a@),
        in_order(b@),
    ensures
        in_order(r@),
        r@.to_multiset() == a@.to_multiset().add(b@.to_multiset()),
        r@.len() == a@.len() + b@.len(),
{
    broadcast use vstd::seq_lib::group_to_multiset_ensures;

    let ghost total = a@.to_multiset().add(b@.to_multiset());
    let ghost length = a@.len() + b@.len();
    let mut a = a;
    let mut b = b;
    let mut out: Vec<T> = Vec::new();
    proof {
        assert(out@.to_multiset() =~= Multiset::empty());
        assert(a@.to_multiset().add(b@.to_multiset()).add(out@.to_multiset()) =~= total);
    }
    while a.len() > 0 || b.len() > 0
        invariant
            in_order(a@),
            in_order(b@),
            in_reverse(out@),
            all_rank(a@, out@),
            all_rank(b@, out@),
            a@.to_multiset().add(b@.to_multiset()).add(out@.to_multiset()) == total,
            a@.len() + b@.len() + out@.len() == length,
        decreases a.len() + b.len(),
    {
        broadcast use vstd::seq_lib::group_to_multiset_ensures;

        let from_b: bool = if a.len() == 0 {
            true
        } else if b.len() == 0 {
            false
        } else {
            let last_a: usize = a.len() - 1;
            let last_b: usize = b.len() - 1;
            a[last_a].no_later(&b[last_b])
        };
        let ghost a0 = a@;
        let ghost b0 = b@;
        let ghost out0 = out@;
        if from_b {
            match b.pop() {
                Some(x) => {
                    proof {
                        lemma_take_last(b0, a0, out0);
                    }
                    out.push(x);
                    proof {
                        assert(b0 =~= b@.push(x));
                        assert(a@.to_multiset().add(b@.to_multiset()).add(out@.to_multiset())
                            =~= a0.to_multiset().add(b0.to_multiset()).add(out0.to_multiset()));
                    }
                },
                None => {},
            }
        } else {
            match a.pop() {
                Some(x) => {
                    proof {
                        if b0.len() > 0 {
                            T::ranks_total(&a0.last(), &b0.last());
                        }
                        lemma_take_last(a0, b0, out0);
                    }
                    out.push(x);
                    proof {
                        assert(a0 =~= a@.push(x));
                        assert(a@.to_multiset().add(b@.to_multiset()).add(out@.to_multiset())
                            =~= a0.to_multiset().add(b0.to_multiset()).add(out0.to_multiset()));
                    }
                },
                None => {},
            }
        }
    }
    proof {
        assert(a@ =~= Seq::empty());
        assert(b@ =~= Seq::empty());
        assert(out@.to_multiset() =~= total);
    }
    reversed(out)
}

/// Moving the last value of one sequence behind the values already out keeps
/// them in reverse order, if no value of the other sequence ranks after it.
proof fn lemma_take_last<T: Ranked>(from: Seq<T>, other: Seq<T>, out: Seq<T>)
    requires
        from.len() > 0,
        in_order(from),
        in_order(other),
        in_reverse(out),
        all_rank(from, out),
        all_rank(other, out),
        other.len() > 0 ==> other.last().ranks(&from.last()),
    ensures
        in_order(from.drop_last()),
        in_reverse(out.push(from.last())),
        all_rank(from.drop_last(), out.push(from.last())),
        all_rank(other, out.push(from.last())),
{
    let x = from.last();
    assert forall|i: int| 0 <= i < other.len() implies (#[trigger] other[i]).ranks(&x) by {
        if i < other.len() - 1 {
            T::ranks_transitive(&other[i], &other.last(), &x);
        }
    }
    assert forall|i: int, j: int| 0 <= i < j < out.len() + 1 implies (#[trigger] out.push(
        x,
    )[j]).ranks(#[trigger] &out.push(x)[i]) by {
        if j == out.len() {
            assert(from[from.len() - 1].ranks(&out[i]));
        } else {
            assert(out[j].ranks(&out[i]));
        }
    }
    assert forall|i: int, j: int|
        0 <= i < from.len() - 1 && 0 <= j < out.len() + 1 implies (#[trigger] from.drop_last()[i]).ranks(
    #[trigger] &out.push(x)[j]) by {
        if j == out.len() {
            assert(from[i].ranks(&from[from.len() - 1]));
        } else {
            assert(from[i].ranks(&out[j]));
        }
    }
    assert forall|i: int, j: int|
        0 <= i < other.len() && 0 <= j < out.len() + 1 implies (#[trigger] other[i]).ranks(
    #[trigger] &out.push(x)[j]) by {
        if j < out.len() {
            assert(other[i].ranks(&out[j]));
        }
    }
}

fn reversed<T: Ranked>(v: Vec<T>) -> (r: Vec<T>)
    requires
        in_reverse(v@),
    ensures
        in_order(r@),
        r@.to_multiset() == v@.to_multiset(),
        r@.len() == v@.len(),
{
    broadcast use vstd::seq_lib::group_to_multiset_ensures;

    let ghost whole = v@;
    let mut v = v;
    let mut out: Vec<T> = Vec::new();
    proof {
        assert(out@.to_multiset() =~= Multiset::empty());
        assert(v@.to_multiset().add(out@.to_multiset()) =~= whole.to_multiset());
    }
    while v.len() > 0
        invariant
            v@.len() + out@.len() == whole.len(),
            v@ == whole.take(v@.len() as int),
            forall|i: int| 0 <= i < out@.len() ==> #[trigger] out@[i] == whole[whole.len() - 1 - i],
            v@.to_multiset().add(out@.to_multiset()) == whole.to_multiset(),
        decreases v.len(),
    {
        broadcast use vstd::seq_lib::group_to_multiset_ensures;

        let ghost v0 = v@;
        let ghost out0 = out@;
        match v.pop() {
            Some(x) => {
                out.push(x);
                proof {
                    assert(v0 =~= v@.push(x));
                    assert(v@ =~= whole.take(v@.len() as int));
                    assert(v@.to_multiset().add(out@.to_multiset()) =~= v0.to_multiset().add(
                        out0.to_multiset(),
                    ));
                }
            },
            None => {},
        }
    }
    proof {
        assert(v@ =~= Seq::empty());
        assert(out@.to_multiset() =~= whole.to_multiset());
        assert forall|i: int, j: int| 0 <= i < j < out@.len() implies (#[trigger] out@[i]).ranks(
        #[trigger] &out@[j]) by {
            assert(whole[whole.len() - 1 - i].ranks(&whole[whole.len() - 1 - j]));
        }
    }
    out
}

} // verus!
