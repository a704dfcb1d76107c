//! The keys of a map of strokes, listed in ascending order.
use vstd::prelude::*;
use vstd::std_specs::btree::increasing_seq;
use vstd::std_specs::cmp::OrdSpec;

verus! {

/// The members of `keys` below `bound`, in ascending order.
pub open spec fn keys_below(keys: Set<u32>, bound: nat) -> Seq<u32>
    decreases bound,
{
    if bound == 0 {
        Seq::empty()
    } else {
        let rest = keys_below(keys, (bound - 1) as nat);
        if bound - 1 <= u32::MAX && keys.contains((bound - 1) as u32) {
            rest.push((bound - 1) as u32)
        } else {
            rest
        }
    }
}

/// The members of `keys` in ascending order.
pub open spec fn ascending_keys(keys: Set<u32>) -> Seq<u32> {
    keys_below(keys, 0x1_0000_0000)
}

/// Whether each number in `s` is less than the next.
pub open spec fn strictly_ascending(s: Seq<u32>) -> bool {
    forall|i: int, j: int| 0 <= i < j < s.len() ==> s[i] < s[j]
}

/// What `keys_below` lists: the members below the bound, each once, in
/// ascending order.
pub proof fn lemma_keys_below(keys: Set<u32>, bound: nat)
    ensures
        strictly_ascending(keys_below(keys, bound)),
        forall|i: int|
            0 <= i < keys_below(keys, bound).len() ==> keys.contains(
                #[trigger] keys_below(keys, bound)[i],
            ) && keys_below(keys, bound)[i] < bound,
        forall|k: u32| keys.contains(k) && k < bound ==> keys_below(keys, bound).contains(k),
    decreases bound,
{
    if bound > 0 {
        let rest = keys_below(keys, (bound - 1) as nat);
        let all = keys_below(keys, bound);
        lemma_keys_below(keys, (bound - 1) as nat);
        assert forall|k: u32| keys.contains(k) && k < bound implies all.contains(k) by {
            if k < bound - 1 {
                let i = choose|i: int| 0 <= i < rest.len() && rest[i] == k;
                assert(all[i] == k);
            } else {
                assert(all[all.len() - 1] == k);
            }
        }
    }
}

/// There is one ascending list of the members below a bound.
pub proof fn lemma_ascending_list_is(keys: Set<u32>, bound: nat, s: Seq<u32>)
    requires
        strictly_ascending(s),
        forall|i: int| 0 <= i < s.len() ==> keys.contains(#[trigger] s[i]) && s[i] < bound,
        forall|k: u32| keys.contains(k) && k < bound ==> s.contains(k),
    ensures
        s == keys_below(keys, bound),
    decreases bound,
{
    if bound == 0 {
        if s.len() > 0 {
            assert(s[0] < bound);
        }
        assert(s =~= keys_below(keys, bound));
    } else {
        let top = (bound - 1) as nat;
        if top <= u32::MAX && keys.contains(top as u32) {
            let k = top as u32;
            let i = choose|i: int| 0 <= i < s.len() && s[i] == k;
            if i < s.len() - 1 {
                assert(s[i] < s[s.len() - 1]);
                assert(s[s.len() - 1] < bound);
            }
            let front = s.drop_last();
            assert forall|k2: u32| keys.contains(k2) && k2 < top implies front.contains(k2) by {
                let j = choose|j: int| 0 <= j < s.len() && s[j] == k2;
                assert(front[j] == k2);
            }
            assert forall|j: int| 0 <= j < front.len() implies keys.contains(#[trigger] front[j])
                && front[j] < top by {
                assert(s[j] < s[s.len() - 1]);
            }
            lemma_ascending_list_is(keys, top, front);
            assert(s =~= front.push(k));
        } else {
            assert forall|j: int| 0 <= j < s.len() implies keys.contains(#[trigger] s[j]) && s[j]
                < top by {
                assert(s[j] < bound);
            }
            lemma_ascending_list_is(keys, top, s);
        }
    }
}

/// The order in which a map of `u32` keys is walked is the ascending one.
pub proof fn lemma_increasing_is_ascending(s: Seq<u32>)
    requires
        increasing_seq(s),
    ensures
        strictly_ascending(s),
{
    broadcast use vstd::laws_cmp::group_laws_cmp;
    broadcast use vstd::std_specs::btree::group_btree_axioms;

    assert forall|i: int, j: int| 0 <= i < j < s.len() implies s[i] < s[j] by {
        assert(s[i].cmp_spec(&s[j]) is Less);
    }
}

/// Maps keyed by `u32` behave the way their specifications say.
pub proof fn lemma_u32_keys()
    ensures
        vstd::laws_cmp::obeys_cmp::<u32>(),
        vstd::std_specs::btree::key_obeys_cmp_spec::<u32>(),
{
    broadcast use vstd::laws_cmp::group_laws_cmp;
    broadcast use vstd::std_specs::btree::group_btree_axioms;

}

} // verus!
