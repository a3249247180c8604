//! The abstract transition table and the training fold.
//!
//! A table maps each key token to the ordered, duplicate-preserving sequence
//! of tokens observed to follow it. Training folds the consecutive token
//! pairs of a string into the table, one appended successor per pair.

use vstd::prelude::*;
use crate::tokenizer::tokens_of;
use crate::tokenizer::pairs_of;
use crate::tokenizer::is_token;

verus! {

/// The abstract state of a transition table: the successors observed for
/// `keys[i]` are `lists[i]`, duplicates retained.
#[verifier::ext_equal]
pub struct TableV {
    pub keys: Seq<Seq<char>>,
    pub lists: Seq<Seq<Seq<char>>>,
}

/// A well-formed table has one successor list per key and no repeated key.
pub open spec fn table_wf(t: TableV) -> bool {
    &&& t.keys.len() == t.lists.len()
    &&& forall|i: int, j: int| 0 <= i < j < t.keys.len() ==> t.keys[i] != t.keys[j]
}

/// Every key and every recorded successor of the table is a well-formed
/// token: non-empty and free of whitespace.
pub open spec fn table_tokens(t: TableV) -> bool {
    &&& forall|i: int| 0 <= i < t.keys.len() ==> is_token(#[trigger] t.keys[i])
    &&& forall|i: int, k: int|
        0 <= i < t.lists.len() && 0 <= k < t.lists[i].len() ==> is_token(#[trigger] t.lists[i][k])
}

/// The table with no keys at all.
pub open spec fn empty_table() -> TableV {
    TableV { keys: Seq::empty(), lists: Seq::empty() }
}

/// The position of `k` among `keys`, or -1 when `k` is absent.
pub open spec fn index_of_key(keys: Seq<Seq<char>>, k: Seq<char>) -> int
    decreases keys.len(),
{
    if keys.len() == 0 {
        -1
    } else if keys[0] == k {
        0
    } else if index_of_key(keys.drop_first(), k) < 0 {
        -1
    } else {
        index_of_key(keys.drop_first(), k) + 1
    }
}

pub proof fn lemma_index_of_key(keys: Seq<Seq<char>>, k: Seq<char>)
    ensures
        index_of_key(keys, k) == -1 || index_of_key(keys, k) >= 0,
        index_of_key(keys, k) >= 0 ==> index_of_key(keys, k) < keys.len() && keys[index_of_key(
            keys,
            k,
        )] == k,
        index_of_key(keys, k) == -1 ==> forall|i: int| 0 <= i < keys.len() ==> keys[i] != k,
        index_of_key(keys, k) >= 0 ==> forall|i: int|
            0 <= i < index_of_key(keys, k) ==> keys[i] != k,
    decreases keys.len(),
{
    if keys.len() > 0 && keys[0] != k {
        lemma_index_of_key(keys.drop_first(), k);
        assert forall|i: int| 0 <= i < keys.len() && keys[i] == k implies index_of_key(keys, k)
            >= 0 by {
            if i > 0 {
                assert(keys.drop_first()[i - 1] == k);
            }
        }
        if index_of_key(keys, k) >= 0 {
            assert forall|i: int| 0 <= i < index_of_key(keys, k) implies keys[i] != k by {
                if i > 0 {
                    assert(keys.drop_first()[i - 1] != k);
                }
            }
        }
    }
}

/// The table after recording one (previous, next) observation: `next` is
/// appended to the successor list of `prev`, a new entry made when `prev`
/// was never a key before.
pub open spec fn train_pair(t: TableV, prev: Seq<char>, next: Seq<char>) -> TableV {
    let i = index_of_key(t.keys, prev);
    if i >= 0 {
        TableV { keys: t.keys, lists: t.lists.update(i, t.lists[i].push(next)) }
    } else {
        TableV { keys: t.keys.push(prev), lists: t.lists.push(seq![next]) }
    }
}

/// The table after recording a sequence of observations, in order.
pub open spec fn train_pairs(t: TableV, ps: Seq<(Seq<char>, Seq<char>)>) -> TableV
    decreases ps.len(),
{
    if ps.len() == 0 {
        t
    } else {
        train_pairs(train_pair(t, ps[0].0, ps[0].1), ps.drop_first())
    }
}

/// The table after training on one string: every consecutive token pair of
/// the string is recorded, in order.
pub open spec fn train_str(t: TableV, s: Seq<char>) -> TableV {
    train_pairs(t, pairs_of(tokens_of(s)))
}

pub proof fn lemma_train_pair_wf(t: TableV, prev: Seq<char>, next: Seq<char>)
    requires
        table_wf(t),
    ensures
        table_wf(train_pair(t, prev, next)),
{
    lemma_index_of_key(t.keys, prev);
}

pub proof fn lemma_train_pair_tokens(t: TableV, prev: Seq<char>, next: Seq<char>)
    requires
        table_wf(t),
        table_tokens(t),
        is_token(prev),
        is_token(next),
    ensures
        table_tokens(train_pair(t, prev, next)),
{
    lemma_index_of_key(t.keys, prev);
    let t2 = train_pair(t, prev, next);
    let i = index_of_key(t.keys, prev);
    if i >= 0 {
        assert forall|a: int, k: int|
            0 <= a < t2.lists.len() && 0 <= k < t2.lists[a].len() implies is_token(
            #[trigger] t2.lists[a][k],
        ) by {
            if a == i && k == t.lists[i].len() {
                assert(t2.lists[a][k] == next);
            } else {
                assert(t2.lists[a][k] == t.lists[a][k]);
            }
        }
    } else {
        assert forall|a: int| 0 <= a < t2.keys.len() implies is_token(#[trigger] t2.keys[a]) by {
            if a == t.keys.len() {
                assert(t2.keys[a] == prev);
            } else {
                assert(t2.keys[a] == t.keys[a]);
            }
        }
        assert forall|a: int, k: int|
            0 <= a < t2.lists.len() && 0 <= k < t2.lists[a].len() implies is_token(
            #[trigger] t2.lists[a][k],
        ) by {
            if a == t.lists.len() {
                assert(t2.lists[a] == seq![next]);
                assert(t2.lists[a][k] == next);
            } else {
                assert(t2.lists[a][k] == t.lists[a][k]);
            }
        }
    }
}

/// The number of recorded observations: the summed length of all successor
/// lists.
pub open spec fn total_successors(lists: Seq<Seq<Seq<char>>>) -> nat
    decreases lists.len(),
{
    if lists.len() == 0 {
        0
    } else {
        lists[0].len() + total_successors(lists.drop_first())
    }
}

proof fn lemma_total_update_push(lists: Seq<Seq<Seq<char>>>, i: int, x: Seq<char>)
    requires
        0 <= i < lists.len(),
    ensures
        total_successors(lists.update(i, lists[i].push(x))) == total_successors(lists) + 1,
    decreases lists.len(),
{
    if i == 0 {
        assert(lists.update(0, lists[0].push(x)).drop_first() =~= lists.drop_first());
    } else {
        assert(lists.update(i, lists[i].push(x)).drop_first() =~= lists.drop_first().update(
            i - 1,
            lists.drop_first()[i - 1].push(x),
        ));
        lemma_total_update_push(lists.drop_first(), i - 1, x);
    }
}

proof fn lemma_total_push(lists: Seq<Seq<Seq<char>>>, l: Seq<Seq<char>>)
    ensures
        total_successors(lists.push(l)) == total_successors(lists) + l.len(),
    decreases lists.len(),
{
    if lists.len() == 0 {
        assert(lists.push(l)[0] == l);
        assert(lists.push(l).drop_first() =~= Seq::<Seq<Seq<char>>>::empty());
        assert(total_successors(lists.push(l)) == l.len() + total_successors(
            lists.push(l).drop_first(),
        ));
        assert(total_successors(lists.push(l)) == total_successors(lists) + l.len());
    } else {
        assert(lists.push(l)[0] == lists[0]);
        assert(lists.push(l).drop_first() =~= lists.drop_first().push(l));
        lemma_total_push(lists.drop_first(), l);
        assert(total_successors(lists.push(l)) == lists[0].len() + total_successors(
            lists.drop_first().push(l),
        ));
        assert(total_successors(lists.push(l)) == total_successors(lists) + l.len());
    }
}

pub proof fn lemma_train_pair_total(t: TableV, prev: Seq<char>, next: Seq<char>)
    requires
        table_wf(t),
    ensures
        total_successors(train_pair(t, prev, next).lists) == total_successors(t.lists) + 1,
{
    lemma_index_of_key(t.keys, prev);
    let i = index_of_key(t.keys, prev);
    if i >= 0 {
        lemma_total_update_push(t.lists, i, next);
    } else {
        lemma_total_push(t.lists, seq![next]);
    }
}

pub proof fn lemma_train_pairs_total(t: TableV, ps: Seq<(Seq<char>, Seq<char>)>)
    requires
        table_wf(t),
    ensures
        total_successors(train_pairs(t, ps).lists) == total_successors(t.lists) + ps.len(),
    decreases ps.len(),
{
    if ps.len() > 0 {
        lemma_train_pair_total(t, ps[0].0, ps[0].1);
        lemma_train_pair_wf(t, ps[0].0, ps[0].1);
        lemma_train_pairs_total(train_pair(t, ps[0].0, ps[0].1), ps.drop_first());
    }
}

/// Training on a string with fewer than two tokens changes nothing: the key
/// set and every successor list stay exactly as they were.
pub proof fn lemma_train_short_is_noop(t: TableV, s: Seq<char>)
    requires
        tokens_of(s).len() < 2,
    ensures
        train_str(t, s) == t,
{
    assert(pairs_of(tokens_of(s)) =~= Seq::<(Seq<char>, Seq<char>)>::empty());
}

/// Training on a string with n >= 2 tokens grows the summed successor-list
/// length by exactly n - 1, one observation per consecutive pair.
pub proof fn lemma_train_grows_by_pairs(t: TableV, s: Seq<char>)
    requires
        table_wf(t),
        tokens_of(s).len() >= 2,
    ensures
        total_successors(train_str(t, s).lists) == total_successors(t.lists) + tokens_of(
            s,
        ).len() - 1,
{
    lemma_train_pairs_total(t, pairs_of(tokens_of(s)));
}

pub proof fn lemma_train_pairs_append(
    t: TableV,
    a: Seq<(Seq<char>, Seq<char>)>,
    b: Seq<(Seq<char>, Seq<char>)>,
)
    ensures
        train_pairs(train_pairs(t, a), b) == train_pairs(t, a + b),
    decreases a.len(),
{
    if a.len() == 0 {
        assert(a + b =~= b);
    } else {
        assert((a + b)[0] == a[0]);
        assert((a + b).drop_first() =~= a.drop_first() + b);
        lemma_train_pairs_append(train_pair(t, a[0].0, a[0].1), a.drop_first(), b);
    }
}

/// Repeated training accumulates: training on one string and then another
/// leaves the same table as recording the two strings' own pair sequences
/// back to back — no pair is formed across the boundary between the strings.
pub proof fn lemma_train_accumulates(t: TableV, s1: Seq<char>, s2: Seq<char>)
    ensures
        train_str(train_str(t, s1), s2) == train_pairs(
            t,
            pairs_of(tokens_of(s1)) + pairs_of(tokens_of(s2)),
        ),
{
    lemma_train_pairs_append(t, pairs_of(tokens_of(s1)), pairs_of(tokens_of(s2)));
}

} // verus!
