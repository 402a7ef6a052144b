//! Claim-order arithmetic: building the initial order from the pending
//! slots, rotating it right by one each round, shuffling it from injected
//! entropy, and deduplicating invitation lists. The executable helpers are
//! proved against the spec functions used throughout the contracts.

use vstd::prelude::*;
use vstd::seq_lib::group_seq_properties;
use vstd::seq_lib::lemma_seq_union_to_multiset_commutative;

verus! {

/// How many slots of a pending order are filled.
pub open spec fn num_filled(s: Seq<Option<u64>>) -> nat
    decreases s.len(),
{
    if s.len() == 0 {
        0nat
    } else {
        num_filled(s.drop_last()) + if s.last() is Some {
            1nat
        } else {
            0nat
        }
    }
}

/// The participants of a pending order, read from its last slot to its
/// first: the initial active order, in which the earliest position claims
/// last.
pub open spec fn rev_filled(s: Seq<Option<u64>>) -> Seq<u64>
    decreases s.len(),
{
    if s.len() == 0 {
        Seq::empty()
    } else {
        match s.last() {
            Some(a) => seq![a] + rev_filled(s.drop_last()),
            None => rev_filled(s.drop_last()),
        }
    }
}

/// The index of the first empty slot of a pending order, if any.
pub open spec fn first_none(s: Seq<Option<u64>>) -> Option<int>
    decreases s.len(),
{
    if s.len() == 0 {
        None
    } else if s[0] is None {
        Some(0int)
    } else {
        match first_none(s.drop_first()) {
            None => None,
            Some(i) => Some(i + 1),
        }
    }
}

/// A sequence rotated right by one: its last element moves to the front.
pub open spec fn rotated_right(s: Seq<u64>) -> Seq<u64> {
    if s.len() == 0 {
        s
    } else {
        seq![s.last()] + s.drop_last()
    }
}

/// The sequence with its duplicates dropped, keeping first occurrences.
pub open spec fn dedup_first(s: Seq<u64>) -> Seq<u64>
    decreases s.len(),
{
    if s.len() == 0 {
        s
    } else {
        let d = dedup_first(s.drop_last());
        if s.drop_last().contains(s.last()) {
            d
        } else {
            d.push(s.last())
        }
    }
}

/// The entropy byte consumed by one draw of the shuffle; draws beyond the
/// supplied entropy use zero.
pub open spec fn ent_byte(e: Seq<u8>, k: int) -> u8 {
    if 0 <= k < e.len() {
        e[k]
    } else {
        0u8
    }
}

/// A shuffle driven by injected entropy: each draw takes one entropy byte,
/// picks the element it selects among those remaining, and appends it.
pub open spec fn spec_shuffle(s: Seq<u64>, e: Seq<u8>, k: int) -> Seq<u64>
    decreases s.len(),
{
    if s.len() == 0 {
        s
    } else {
        let j = (ent_byte(e, k) as int) % (s.len() as int);
        seq![s[j]] + spec_shuffle(s.remove(j), e, k + 1)
    }
}

/// `dedup_first` keeps exactly the members of the sequence, each once.
pub proof fn lemma_dedup_first(s: Seq<u64>)
    ensures
        dedup_first(s).no_duplicates(),
        forall|x: u64| dedup_first(s).contains(x) <==> s.contains(x),
        dedup_first(s).len() == s.to_set().len(),
    decreases s.len(),
{
    broadcast use group_seq_properties;

    if s.len() == 0 {
        assert(s.to_set() =~= Set::empty());
    } else {
        let dl = s.drop_last();
        lemma_dedup_first(dl);
        assert forall|x: u64| s.contains(x) implies dedup_first(s).contains(x) by {
            let i = choose|i: int| 0 <= i < s.len() && s[i] == x;
            if i < s.len() - 1 {
                assert(dl[i] == x);
                assert(dl.contains(x));
                if !dl.contains(s.last()) {
                    assert(dedup_first(dl).contains(x));
                    let j = choose|j: int| 0 <= j < dedup_first(dl).len() && dedup_first(dl)[j]
                        == x;
                    assert(dedup_first(s)[j] == x);
                }
            } else {
                if dl.contains(s.last()) {
                    assert(dedup_first(dl).contains(x));
                } else {
                    assert(dedup_first(s).last() == x);
                }
            }
        }
        assert forall|x: u64| dedup_first(s).contains(x) implies s.contains(x) by {
            if !dl.contains(s.last()) {
                let d = dedup_first(dl);
                let j = choose|j: int| 0 <= j < dedup_first(s).len() && dedup_first(s)[j] == x;
                if j < d.len() {
                    assert(d.contains(x));
                    assert(dl.contains(x));
                    let i = choose|i: int| 0 <= i < dl.len() && dl[i] == x;
                    assert(s[i] == x);
                } else {
                    assert(x == s.last());
                }
            } else {
                assert(dl.contains(x));
                let i = choose|i: int| 0 <= i < dl.len() && dl[i] == x;
                assert(s[i] == x);
            }
        }
        dedup_first(s).unique_seq_to_set();
        assert(dedup_first(s).to_set() =~= s.to_set());
    }
}

/// The shuffled sequence is a permutation of the input: same multiset of
/// elements, and so the same length and the same members.
pub proof fn lemma_shuffle_permutes(s: Seq<u64>, e: Seq<u8>, k: int)
    ensures
        spec_shuffle(s, e, k).to_multiset() == s.to_multiset(),
        spec_shuffle(s, e, k).len() == s.len(),
    decreases s.len(),
{
    broadcast use vstd::seq_lib::group_to_multiset_ensures;
    broadcast use vstd::multiset::group_multiset_axioms;

    if s.len() > 0 {
        let j = (ent_byte(e, k) as int) % (s.len() as int);
        let rest = s.remove(j);
        lemma_shuffle_permutes(rest, e, k + 1);
        let out = spec_shuffle(s, e, k);
        assert(out =~= seq![s[j]] + spec_shuffle(rest, e, k + 1));
        assert(out.remove(0) =~= spec_shuffle(rest, e, k + 1));
        let ms_out = out.to_multiset();
        let ms_s = s.to_multiset();
        assert(out.remove(0).to_multiset() == ms_out.remove(out[0]));
        assert(rest.to_multiset() == ms_s.remove(s[j]));
        assert(ms_out.remove(s[j]) == ms_s.remove(s[j]));
        assert(ms_out.count(s[j]) > 0) by {
            assert(out[0] == s[j]);
            assert(out.contains(s[j]));
        }
        assert(ms_s.count(s[j]) > 0) by {
            assert(s.contains(s[j]));
        }
        assert forall|x: u64| ms_out.count(x) == ms_s.count(x) by {
            if x == s[j] {
                assert(ms_out.remove(s[j]).count(x) == ms_out.count(x) - 1);
                assert(ms_s.remove(s[j]).count(x) == ms_s.count(x) - 1);
            } else {
                assert(ms_out.remove(s[j]).count(x) == ms_out.count(x));
                assert(ms_s.remove(s[j]).count(x) == ms_s.count(x));
            }
        }
        assert(ms_out =~= ms_s);
    }
}

/// A permutation of a duplicate-free sequence is duplicate-free.
pub proof fn lemma_permutation_no_duplicates(a: Seq<u64>, b: Seq<u64>)
    requires
        a.to_multiset() == b.to_multiset(),
        a.no_duplicates(),
    ensures
        b.no_duplicates(),
{
    a.lemma_multiset_has_no_duplicates();
    b.lemma_multiset_has_no_duplicates_conv();
}

/// `rev_filled` yields one element per filled slot.
pub proof fn lemma_rev_filled_len(s: Seq<Option<u64>>)
    ensures
        rev_filled(s).len() == num_filled(s),
    decreases s.len(),
{
    if s.len() > 0 {
        lemma_rev_filled_len(s.drop_last());
    }
}

/// Every element of `rev_filled` comes from a filled slot, and every
/// filled slot appears.
pub proof fn lemma_rev_filled_members(s: Seq<Option<u64>>)
    ensures
        forall|x: u64| rev_filled(s).contains(x) <==> s.contains(Some(x)),
    decreases s.len(),
{
    broadcast use group_seq_properties;

    if s.len() > 0 {
        let dl = s.drop_last();
        lemma_rev_filled_members(dl);
        assert forall|x: u64| rev_filled(s).contains(x) implies s.contains(Some(x)) by {
            let r = rev_filled(s);
            let j = choose|j: int| 0 <= j < r.len() && r[j] == x;
            match s.last() {
                Some(a) => {
                    if j == 0 {
                        assert(s[s.len() - 1] == Some(x));
                    } else {
                        assert(rev_filled(dl)[j - 1] == x);
                        assert(rev_filled(dl).contains(x));
                        let i = choose|i: int| 0 <= i < dl.len() && dl[i] == Some(x);
                        assert(s[i] == Some(x));
                    }
                },
                None => {
                    assert(rev_filled(dl).contains(x));
                    let i = choose|i: int| 0 <= i < dl.len() && dl[i] == Some(x);
                    assert(s[i] == Some(x));
                },
            }
        }
        assert forall|x: u64| s.contains(Some(x)) implies rev_filled(s).contains(x) by {
            let i = choose|i: int| 0 <= i < s.len() && s[i] == Some(x);
            if i < s.len() - 1 {
                assert(dl[i] == Some(x));
                assert(dl.contains(Some(x)));
                assert(rev_filled(dl).contains(x));
                let j = choose|j: int| 0 <= j < rev_filled(dl).len() && rev_filled(dl)[j] == x;
                match s.last() {
                    Some(a) => {
                        assert(rev_filled(s)[j + 1] == x);
                    },
                    None => {
                        assert(rev_filled(s)[j] == x);
                    },
                }
            } else {
                assert(s.last() == Some(x));
                assert(rev_filled(s)[0] == x);
            }
        }
    }
}

/// When no participant occupies two slots, the initial active order is
/// duplicate-free.
pub proof fn lemma_rev_filled_no_duplicates(s: Seq<Option<u64>>)
    requires
        forall|i: int, j: int| #![trigger s[i], s[j]]
            0 <= i < j < s.len() && s[i] is Some ==> s[i] != s[j],
    ensures
        rev_filled(s).no_duplicates(),
    decreases s.len(),
{
    if s.len() > 0 {
        let dl = s.drop_last();
        assert forall|i: int, j: int| #![trigger dl[i], dl[j]]
            0 <= i < j < dl.len() && dl[i] is Some implies dl[i] != dl[j] by {
            assert(s[i] == dl[i] && s[j] == dl[j]);
        }
        lemma_rev_filled_no_duplicates(dl);
        match s.last() {
            Some(a) => {
                lemma_rev_filled_members(dl);
                if rev_filled(dl).contains(a) {
                    let i = choose|i: int| 0 <= i < dl.len() && dl[i] == Some(a);
                    assert(s[i] == Some(a) && s[s.len() - 1] == Some(a));
                    assert(false);
                }
                let r = rev_filled(s);
                assert(r.drop_first() =~= rev_filled(dl));
                assert forall|i: int, j: int| 0 <= i < j < r.len() implies r[i] != r[j] by {
                    if i == 0 {
                        assert(rev_filled(dl)[j - 1] == r[j]);
                        assert(rev_filled(dl).contains(r[j]));
                    } else {
                        assert(rev_filled(dl)[i - 1] == r[i] && rev_filled(dl)[j - 1] == r[j]);
                    }
                }
            },
            None => {
            },
        }
    }
}


/// A slot sequence with no filled slot holds no participant.
pub proof fn lemma_num_filled_none(s: Seq<Option<u64>>)
    requires
        forall|i: int| 0 <= i < s.len() ==> s[i] is None,
    ensures
        num_filled(s) == 0,
    decreases s.len(),
{
    if s.len() > 0 {
        let dl = s.drop_last();
        assert forall|i: int| 0 <= i < dl.len() implies dl[i] is None by {
            assert(s[i] is None);
        }
        lemma_num_filled_none(dl);
        assert(s.last() == s[s.len() - 1]);
    }
}

/// A slot sequence with exactly one filled slot holds one participant.
pub proof fn lemma_num_filled_singleton(s: Seq<Option<u64>>, pos: int)
    requires
        0 <= pos < s.len(),
        forall|i: int| 0 <= i < s.len() ==> (s[i] is Some <==> i == pos),
    ensures
        num_filled(s) == 1,
    decreases s.len(),
{
    let dl = s.drop_last();
    if pos == s.len() - 1 {
        assert forall|i: int| 0 <= i < dl.len() implies dl[i] is None by {
            assert(s[i] is None);
        }
        lemma_num_filled_none(dl);
        assert(s.last() == s[pos]);
    } else {
        assert forall|i: int| 0 <= i < dl.len() implies (dl[i] is Some <==> i == pos) by {
            assert(dl[i] == s[i]);
        }
        lemma_num_filled_singleton(dl, pos);
        assert(s.last() == s[s.len() - 1]);
    }
}

/// Updating one slot changes the filled count by the difference the slot
/// contributes.
pub proof fn lemma_num_filled_update(s: Seq<Option<u64>>, i: int, v: Option<u64>)
    requires
        0 <= i < s.len(),
    ensures
        num_filled(s.update(i, v)) == num_filled(s) - (if s[i] is Some {
            1int
        } else {
            0int
        }) + (if v is Some {
            1int
        } else {
            0int
        }),
    decreases s.len(),
{
    let t = s.update(i, v);
    if i == s.len() - 1 {
        assert(t.drop_last() =~= s.drop_last());
        assert(t.last() == v);
        assert(s.last() == s[i]);
    } else {
        assert(t.drop_last() =~= s.drop_last().update(i, v));
        assert(t.last() == s.last());
        assert(s.drop_last()[i] == s[i]);
        lemma_num_filled_update(s.drop_last(), i, v);
    }
}

/// No more slots are filled than exist.
pub proof fn lemma_num_filled_le(s: Seq<Option<u64>>)
    ensures
        num_filled(s) <= s.len(),
    decreases s.len(),
{
    if s.len() > 0 {
        lemma_num_filled_le(s.drop_last());
    }
}

/// Appending an element adds it to the member set.
pub proof fn lemma_to_set_push(s: Seq<u64>, x: u64)
    ensures
        s.push(x).to_set() == s.to_set().insert(x),
{
    broadcast use group_seq_properties;

    let t = s.push(x);
    assert forall|y: u64| t.to_set().contains(y) implies s.to_set().insert(x).contains(y) by {
        assert(t.contains(y));
        let i = choose|i: int| 0 <= i < t.len() && t[i] == y;
        if i < s.len() {
            assert(s[i] == y);
            assert(s.contains(y));
        }
    }
    assert forall|y: u64| s.to_set().insert(x).contains(y) implies t.to_set().contains(y) by {
        if y == x {
            assert(t[s.len() as int] == y);
            assert(t.contains(y));
        } else {
            assert(s.contains(y));
            let i = choose|i: int| 0 <= i < s.len() && s[i] == y;
            assert(t[i] == y);
            assert(t.contains(y));
        }
    }
    assert(t.to_set() =~= s.to_set().insert(x));
}


/// Where `first_none` points: at the first empty slot, every slot before
/// it filled; `None` exactly when every slot is filled.
pub proof fn lemma_first_none_char(s: Seq<Option<u64>>)
    ensures
        match first_none(s) {
            Some(i) => 0 <= i < s.len() && s[i] is None && forall|j: int| 0 <= j < i ==> s[j] is Some,
            None => forall|j: int| 0 <= j < s.len() ==> s[j] is Some,
        },
    decreases s.len(),
{
    if s.len() > 0 && !(s[0] is None) {
        let df = s.drop_first();
        lemma_first_none_char(df);
        match first_none(df) {
            Some(i) => {
                assert(s[i + 1] == df[i]);
                assert forall|j: int| 0 <= j < i + 1 implies s[j] is Some by {
                    if j > 0 {
                        assert(df[j - 1] == s[j]);
                    }
                }
            },
            None => {
                assert forall|j: int| 0 <= j < s.len() implies s[j] is Some by {
                    if j > 0 {
                        assert(df[j - 1] == s[j]);
                    }
                }
            },
        }
    }
}

/// A filled slot means at least one participant is counted.
pub proof fn lemma_num_filled_pos(s: Seq<Option<u64>>, i: int)
    requires
        0 <= i < s.len(),
        s[i] is Some,
    ensures
        num_filled(s) >= 1,
    decreases s.len(),
{
    if i == s.len() - 1 {
        assert(s.last() == s[i]);
    } else {
        assert(s.drop_last()[i] == s[i]);
        lemma_num_filled_pos(s.drop_last(), i);
    }
}


/// Peeling the first slot off a pending order appends its participant (if
/// filled) to the tail's initial order.
pub proof fn lemma_rev_filled_drop_first(s: Seq<Option<u64>>)
    requires
        s.len() >= 1,
    ensures
        rev_filled(s) == rev_filled(s.drop_first()) + (match s[0] {
            Some(a) => seq![a],
            None => Seq::<u64>::empty(),
        }),
    decreases s.len(),
{
    if s.len() == 1 {
        assert(s.drop_first() =~= Seq::<Option<u64>>::empty());
        match s[0] {
            Some(a) => {
                assert(s.last() == s[0]);
                assert(s.drop_last() =~= Seq::<Option<u64>>::empty());
                assert(rev_filled(s) =~= rev_filled(s.drop_first()) + seq![a]);
            },
            None => {
                assert(s.last() == s[0]);
                assert(s.drop_last() =~= Seq::<Option<u64>>::empty());
                assert(rev_filled(s) =~= rev_filled(s.drop_first()) + Seq::<u64>::empty());
            },
        }
    } else {
        let dl = s.drop_last();
        lemma_rev_filled_drop_first(dl);
        assert(s.drop_first().drop_last() =~= dl.drop_first());
        assert(s.drop_first().last() == s.last());
        assert(dl[0] == s[0]);
        match s.last() {
            Some(a) => {
                assert(rev_filled(s) == seq![a] + rev_filled(dl));
                assert(rev_filled(s.drop_first()) == seq![a] + rev_filled(dl.drop_first()));
                assert(rev_filled(s) =~= rev_filled(s.drop_first()) + (match s[0] {
                    Some(b) => seq![b],
                    None => Seq::<u64>::empty(),
                }));
            },
            None => {
                assert(rev_filled(s) == rev_filled(dl));
                assert(rev_filled(s.drop_first()) == rev_filled(dl.drop_first()));
                assert(rev_filled(s) =~= rev_filled(s.drop_first()) + (match s[0] {
                    Some(b) => seq![b],
                    None => Seq::<u64>::empty(),
                }));
            },
        }
    }
}

/// Rotating right keeps the length, the members and their multiplicities,
/// moves the last element to the front, and preserves freedom from
/// duplicates.
pub proof fn lemma_rotated_right(s: Seq<u64>)
    requires
        s.len() >= 1,
    ensures
        rotated_right(s).len() == s.len(),
        rotated_right(s)[0] == s.last(),
        rotated_right(s).to_multiset() == s.to_multiset(),
        s.no_duplicates() ==> rotated_right(s).no_duplicates(),
        forall|x: u64| rotated_right(s).contains(x) <==> s.contains(x),
{
    let r = rotated_right(s);
    lemma_seq_union_to_multiset_commutative(seq![s.last()], s.drop_last());
    assert(s.drop_last() + seq![s.last()] =~= s);
    broadcast use vstd::seq_lib::group_to_multiset_ensures;

    assert(r.to_multiset() == s.to_multiset());
    if s.no_duplicates() {
        lemma_permutation_no_duplicates(s, r);
    }
    assert forall|x: u64| r.contains(x) <==> s.contains(x) by {
        assert(r.contains(x) <==> r.to_multiset().count(x) > 0);
        assert(s.contains(x) <==> s.to_multiset().count(x) > 0);
    }
}

} // verus!
