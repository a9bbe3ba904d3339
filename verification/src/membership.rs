use vstd::prelude::*;
use crate::entity::Entity;

verus! {

/// How many times `e` occurs in `s`. Collection invariants demand a count
/// of exactly one for every member.
pub open spec fn count_in(s: Seq<Entity>, e: Entity) -> nat
    decreases s.len(),
{
    if s.len() == 0 {
        0
    } else {
        count_in(s.drop_last(), e) + if s.last() == e { 1nat } else { 0nat }
    }
}

/// `s` with every occurrence of `e` removed; the relative order of the
/// other elements is kept.
pub open spec fn remove_all(s: Seq<Entity>, e: Entity) -> Seq<Entity>
    decreases s.len(),
{
    if s.len() == 0 {
        s
    } else if s.last() == e {
        remove_all(s.drop_last(), e)
    } else {
        remove_all(s.drop_last(), e).push(s.last())
    }
}

pub proof fn lemma_count_push(s: Seq<Entity>, x: Entity, e: Entity)
    ensures
        count_in(s.push(x), e) == count_in(s, e) + if x == e { 1nat } else { 0nat },
{
    assert(s.push(x).drop_last() =~= s);
}

pub proof fn lemma_count_zero(s: Seq<Entity>, e: Entity)
    ensures
        (count_in(s, e) == 0) <==> (forall|k: int| 0 <= k < s.len() ==> s[k] != e),
    decreases s.len(),
{
    if s.len() > 0 {
        lemma_count_zero(s.drop_last(), e);
        assert(forall|k: int| 0 <= k < s.len() - 1 ==> s.drop_last()[k] == s[k]);
        if count_in(s, e) == 0 {
            assert(s.last() != e);
            assert(forall|k: int| 0 <= k < s.len() - 1 ==> s[k] == s.drop_last()[k]);
        } else {
            if s.last() != e {
                assert(count_in(s.drop_last(), e) > 0);
                let k = choose|k: int| 0 <= k < s.len() - 1 && s.drop_last()[k] == e;
                assert(s[k] == e);
            }
        }
    }
}

pub proof fn lemma_count_at(s: Seq<Entity>, e: Entity, k: int)
    requires
        0 <= k < s.len(),
        s[k] == e,
    ensures
        count_in(s, e) >= 1,
{
    lemma_count_zero(s, e);
}

pub proof fn lemma_count_le_len(s: Seq<Entity>, e: Entity)
    ensures
        count_in(s, e) <= s.len(),
    decreases s.len(),
{
    if s.len() > 0 {
        lemma_count_le_len(s.drop_last(), e);
    }
}

pub proof fn lemma_remove_all_count(s: Seq<Entity>, e: Entity, x: Entity)
    ensures
        count_in(remove_all(s, e), x) == if x == e { 0nat } else { count_in(s, x) },
    decreases s.len(),
{
    if s.len() > 0 {
        lemma_remove_all_count(s.drop_last(), e, x);
        if s.last() != e {
            lemma_count_push(remove_all(s.drop_last(), e), s.last(), x);
        }
    }
}

pub proof fn lemma_remove_all_len(s: Seq<Entity>, e: Entity)
    ensures
        remove_all(s, e).len() == s.len() - count_in(s, e),
    decreases s.len(),
{
    lemma_count_le_len(s, e);
    if s.len() > 0 {
        lemma_remove_all_len(s.drop_last(), e);
    }
}

/// Every element of `remove_all(s, e)` stands somewhere in `s` and is not
/// `e`; membership of all other elements is kept exactly.
pub proof fn lemma_remove_all_membership(s: Seq<Entity>, e: Entity)
    ensures
        forall|x: Entity| count_in(remove_all(s, e), x)
            == if x == e { 0nat } else { count_in(s, x) },
{
    assert forall|x: Entity| count_in(remove_all(s, e), x)
        == if x == e { 0nat } else { count_in(s, x) } by {
        lemma_remove_all_count(s, e, x);
    }
}

/// Removing the head element of a list in which it occurs exactly once
/// just drops the head.
pub proof fn lemma_remove_all_head(s: Seq<Entity>, e: Entity)
    requires
        s.len() > 0,
        s[0] == e,
        count_in(s, e) == 1,
    ensures
        remove_all(s, e) =~= s.drop_first(),
    decreases s.len(),
{
    if s.len() == 1 {
        assert(s.last() == e);
        assert(s.drop_last() =~= Seq::<Entity>::empty());
        assert(remove_all(s.drop_last(), e) == s.drop_last());
        assert(remove_all(s, e) =~= Seq::<Entity>::empty());
        assert(s.drop_first() =~= Seq::<Entity>::empty());
    } else {
        assert(s.drop_last()[0] == e);
        assert(count_in(s.drop_last(), e) >= 1) by {
            lemma_count_at(s.drop_last(), e, 0);
        }
        assert(s.last() != e);
        lemma_remove_all_head(s.drop_last(), e);
        assert(remove_all(s, e) == remove_all(s.drop_last(), e).push(s.last()));
        assert(remove_all(s.drop_last(), e) =~= s.drop_last().drop_first());
        assert(remove_all(s, e) =~= s.drop_first());
    }
}

/// Builds the member list with every occurrence of `e` removed, keeping
/// the order of the others.
pub fn erase_member(src: &Vec<Entity>, e: Entity) -> (r: Vec<Entity>)
    ensures
        r@ == remove_all(src@, e),
{
    let mut out: Vec<Entity> = Vec::new();
    let mut i: usize = 0;
    while i < src.len()
        invariant
            i <= src@.len(),
            out@ == remove_all(src@.take(i as int), e),
        decreases src@.len() - i,
    {
        proof {
            assert(src@.take(i as int + 1).drop_last() =~= src@.take(i as int));
            assert(src@.take(i as int + 1).last() == src@[i as int]);
        }
        if !(src[i].index == e.index && src[i].generation == e.generation) {
            proof {
                assert(src@[i as int] != e);
            }
            out.push(src[i]);
        } else {
            proof {
                assert(src@[i as int] == e);
            }
        }
        i = i + 1;
    }
    proof {
        assert(src@.take(src@.len() as int) =~= src@);
    }
    out
}

/// A positive count names a position: `count_in` characterises
/// containment.
pub proof fn lemma_count_positive_index(s: Seq<Entity>, e: Entity)
    requires
        count_in(s, e) >= 1,
    ensures
        exists|k: int| 0 <= k < s.len() && s[k] == e,
{
    lemma_count_zero(s, e);
}

} // verus!
