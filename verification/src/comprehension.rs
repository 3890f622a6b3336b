//! List comprehensions in the style of Python, as functions: map the items of
//! a list that pass a condition, and flatten nested comprehensions.

use vstd::prelude::*;

verus! {

/// The items of `s` at the positions where `keep` holds, in order.
pub open spec fn pick<T>(s: Seq<T>, keep: Seq<bool>) -> Seq<T>
    decreases s.len(),
{
    if s.len() == 0 || keep.len() == 0 {
        Seq::empty()
    } else if keep.last() {
        pick(s.drop_last(), keep.drop_last()).push(s.last())
    } else {
        pick(s.drop_last(), keep.drop_last())
    }
}

/// The positions of `s` paired with whether each is kept.
pub open spec fn marked<T>(s: Seq<T>, keep: Seq<bool>) -> Seq<(T, bool)> {
    Seq::new(s.len(), |i: int| (s[i], keep[i]))
}

/// `pick` keeps exactly the items whose mark is `true`, all of them and in
/// their order, for lists of any length: it is the filter of the marked items.
pub proof fn law_pick_keeps_every_marked_item<T>(s: Seq<T>, keep: Seq<bool>)
    requires
        keep.len() == s.len(),
    ensures
        pick(s, keep) == marked(s, keep).filter(|p: (T, bool)| p.1).map_values(|p: (T, bool)| p.0),
    decreases s.len(),
{
    reveal(Seq::filter);
    let f = marked(s, keep).filter(|p: (T, bool)| p.1);
    if s.len() > 0 {
        law_pick_keeps_every_marked_item(s.drop_last(), keep.drop_last());
        assert(marked(s, keep).drop_last() =~= marked(s.drop_last(), keep.drop_last()));
        let g = marked(s.drop_last(), keep.drop_last()).filter(|p: (T, bool)| p.1);
        if keep.last() {
            assert(f == g.push((s.last(), true)));
            assert(f.map_values(|p: (T, bool)| p.0) =~= g.map_values(|p: (T, bool)| p.0).push(s.last()));
        } else {
            assert(f == g);
        }
    } else {
        assert(f =~= Seq::<(T, bool)>::empty());
        assert(f.map_values(|p: (T, bool)| p.0) =~= Seq::<T>::empty());
    }
}

/// `[mapping(x) for x in items if condition(x)]`: the items that pass the
/// condition, each mapped, in order.
pub fn comprehension<T, U, M, C>(items: Vec<T>, mapping: M, condition: C) -> (r: Vec<U>) where
    M: Fn(T) -> U,
    C: Fn(&T) -> bool,

    requires
        forall|i: int|
            0 <= i < items.len() ==> call_requires(condition, (&#[trigger] items@[i],))
                && call_requires(mapping, (items@[i],)),
    ensures
        exists|keep: Seq<bool>|
            {
                &&& keep.len() == items.len()
                &&& forall|i: int|
                    0 <= i < items.len() ==> call_ensures(condition, (&#[trigger] items@[i],), keep[i])
                &&& r.len() == pick(items@, keep).len()
                &&& forall|j: int|
                    0 <= j < r.len() ==> call_ensures(
                        mapping,
                        (pick(items@, keep)[j],),
                        #[trigger] r@[j],
                    )
            },
{
    let ghost all = items@;
    let ghost mut keep: Seq<bool> = Seq::empty();
    let mut r: Vec<U> = Vec::new();
    for x in it: items.into_iter()
        invariant
            it.seq() == all,
            forall|i: int|
                0 <= i < all.len() ==> call_requires(condition, (&#[trigger] all[i],))
                    && call_requires(mapping, (all[i],)),
            keep.len() == it.index(),
            forall|i: int| 0 <= i < keep.len() ==> call_ensures(condition, (&#[trigger] all[i],), keep[i]),
            r.len() == pick(all.take(it.index()), keep).len(),
            forall|j: int|
                0 <= j < r.len() ==> call_ensures(
                    mapping,
                    (pick(all.take(it.index()), keep)[j],),
                    #[trigger] r@[j],
                ),
    {
        let ghost k = it.index();
        assert(all.take(k + 1).drop_last() =~= all.take(k));
        assert(all[k] == x);
        let pass = condition(&x);
        let ghost old_keep = keep;
        let ghost old_pick = pick(all.take(k), old_keep);
        proof {
            keep = keep.push(pass);
            assert(keep.drop_last() =~= old_keep);
            assert(pick(all.take(k + 1), keep) == (if pass {
                old_pick.push(x)
            } else {
                old_pick
            }));
        }
        if pass {
            let y = mapping(x);
            r.push(y);
        }
    }
    proof {
        assert(all.take(all.len() as int) =~= all);
    }
    r
}

/// A comprehension with a further, outer `for` clause:
/// `[... for s in outer if condition(s)]` where `inner(s)` is the inner
/// comprehension over `s`; the lists that `inner` gives, one after the other.
pub fn comprehension_flatten<S, U, I, C>(outer: Vec<S>, inner: I, condition: C) -> (r: Vec<U>) where
    I: Fn(S) -> Vec<U>,
    C: Fn(&S) -> bool,

    requires
        forall|i: int|
            0 <= i < outer.len() ==> call_requires(condition, (&#[trigger] outer@[i],))
                && call_requires(inner, (outer@[i],)),
    ensures
        exists|keep: Seq<bool>, parts: Seq<Vec<U>>|
            {
                &&& keep.len() == outer.len()
                &&& forall|i: int|
                    0 <= i < outer.len() ==> call_ensures(condition, (&#[trigger] outer@[i],), keep[i])
                &&& parts.len() == pick(outer@, keep).len()
                &&& forall|j: int|
                    0 <= j < parts.len() ==> call_ensures(
                        inner,
                        (pick(outer@, keep)[j],),
                        #[trigger] parts[j],
                    )
                &&& r@ == parts.map_values(|v: Vec<U>| v@).flatten()
            },
{
    let ghost all = outer@;
    let ghost mut keep: Seq<bool> = Seq::empty();
    let ghost mut parts: Seq<Vec<U>> = Seq::empty();
    let mut r: Vec<U> = Vec::new();
    for s in it: outer.into_iter()
        invariant
            it.seq() == all,
            forall|i: int|
                0 <= i < all.len() ==> call_requires(condition, (&#[trigger] all[i],))
                    && call_requires(inner, (all[i],)),
            keep.len() == it.index(),
            forall|i: int| 0 <= i < keep.len() ==> call_ensures(condition, (&#[trigger] all[i],), keep[i]),
            parts.len() == pick(all.take(it.index()), keep).len(),
            forall|j: int|
                0 <= j < parts.len() ==> call_ensures(
                    inner,
                    (pick(all.take(it.index()), keep)[j],),
                    #[trigger] parts[j],
                ),
            r@ == parts.map_values(|v: Vec<U>| v@).flatten(),
    {
        let ghost k = it.index();
        assert(all.take(k + 1).drop_last() =~= all.take(k));
        assert(all[k] == s);
        let pass = condition(&s);
        let ghost old_keep = keep;
        let ghost old_pick = pick(all.take(k), old_keep);
        proof {
            keep = keep.push(pass);
            assert(keep.drop_last() =~= old_keep);
            assert(pick(all.take(k + 1), keep) == (if pass {
                old_pick.push(s)
            } else {
                old_pick
            }));
        }
        if pass {
            let mut v = inner(s);
            proof {
                let old_parts = parts;
                parts = parts.push(v);
                assert(parts.map_values(|v: Vec<U>| v@) =~= old_parts.map_values(|v: Vec<U>| v@).push(v@));
                old_parts.map_values(|v: Vec<U>| v@).lemma_flatten_push(v@);
            }
            r.append(&mut v);
        }
    }
    proof {
        assert(all.take(all.len() as int) =~= all);
    }
    r
}

} // verus!
