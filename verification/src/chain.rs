//! The Markov chain model: an executable transition table, trained one
//! string at a time and queried by a random walk.

use vstd::prelude::*;
use crate::table::TableV;
use crate::table::table_wf;
use crate::table::empty_table;
use crate::table::index_of_key;
use crate::table::lemma_index_of_key;
use crate::table::train_pair;
use crate::table::train_pairs;
use crate::table::train_str;
use crate::tokenizer::pairs_of;
use crate::table::lemma_train_pair_wf;
use crate::table::lemma_train_pair_tokens;
use crate::table::lemma_train_pairs_append;
use crate::table::table_tokens;
use crate::table::total_successors;
use crate::tokenizer::tokenize;
use crate::tokenizer::tokens_of;
use crate::tokenizer::tokens_acc;
use crate::tokenizer::is_token;
use crate::tokenizer::is_space_char;
use crate::tokenizer::lemma_tokens_of_are_tokens;
use crate::sampling::pick_index;

verus! {

/// Whether position `i` of `walk` follows its predecessor legally: the token
/// before it is a key of `t` and `walk[i]` stands in that key's successor
/// list.
pub open spec fn walk_step(t: TableV, walk: Seq<Seq<char>>, i: int) -> bool {
    let j = index_of_key(t.keys, walk[i - 1]);
    j >= 0 && t.lists[j].contains(walk[i])
}

/// A walk is a token sequence the table can produce: it starts at a key of
/// `t`, and every later token was observed to follow the token before it.
pub open spec fn is_walk(t: TableV, walk: Seq<Seq<char>>) -> bool {
    &&& walk.len() > 0 ==> index_of_key(t.keys, walk[0]) >= 0
    &&& forall|i: int| 0 < i < walk.len() ==> #[trigger] walk_step(t, walk, i)
}

/// The emitted tokens joined by one space after every token, the trailing
/// one included.
pub open spec fn join_spaced(walk: Seq<Seq<char>>) -> Seq<char>
    decreases walk.len(),
{
    if walk.len() == 0 {
        Seq::empty()
    } else {
        walk[0] + seq![' '] + join_spaced(walk.drop_first())
    }
}

/// The most tokens a generation call bounded by `words` may emit.
pub open spec fn max_tokens(words: i16) -> int {
    if words <= 0 {
        0
    } else {
        words as int
    }
}

/// A token a walk cannot leave: not a key of the table, or a key whose
/// successor list is empty.
pub open spec fn dead_end(t: TableV, tok: Seq<char>) -> bool {
    index_of_key(t.keys, tok) < 0 || t.lists[index_of_key(t.keys, tok)].len() == 0
}

proof fn lemma_join_spaced_push(walk: Seq<Seq<char>>, x: Seq<char>)
    ensures
        join_spaced(walk.push(x)) == join_spaced(walk) + x + seq![' '],
    decreases walk.len(),
{
    if walk.len() == 0 {
        assert(walk.push(x)[0] == x);
        assert(walk.push(x).drop_first() =~= Seq::<Seq<char>>::empty());
        assert(join_spaced(Seq::<Seq<char>>::empty()) == Seq::<char>::empty());
        assert(join_spaced(walk.push(x)) == x + seq![' '] + Seq::<char>::empty());
        assert(join_spaced(walk.push(x)) =~= join_spaced(walk) + x + seq![' ']);
    } else {
        assert(walk.push(x)[0] == walk[0]);
        assert(walk.push(x).drop_first() =~= walk.drop_first().push(x));
        lemma_join_spaced_push(walk.drop_first(), x);
        assert(join_spaced(walk.push(x)) =~= join_spaced(walk) + x + seq![' ']);
    }
}

proof fn lemma_tokens_acc_token_space(tok: Seq<char>, rest: Seq<char>, cur: Seq<char>)
    requires
        forall|i: int| 0 <= i < tok.len() ==> !is_space_char(#[trigger] tok[i]),
        cur.len() + tok.len() > 0,
    ensures
        tokens_acc(tok + seq![' '] + rest, cur) == seq![cur + tok] + tokens_acc(
            rest,
            Seq::empty(),
        ),
    decreases tok.len(),
{
    let s = tok + seq![' '] + rest;
    if tok.len() == 0 {
        assert(s[0] == ' ');
        assert(is_space_char(' '));
        assert(s.drop_first() =~= rest);
        assert(cur + tok =~= cur);
    } else {
        assert(s[0] == tok[0]);
        assert(!is_space_char(s[0]));
        assert(s.drop_first() =~= tok.drop_first() + seq![' '] + rest);
        lemma_tokens_acc_token_space(tok.drop_first(), rest, cur.push(tok[0]));
        assert(cur.push(tok[0]) + tok.drop_first() =~= cur + tok);
    }
}

proof fn lemma_join_tokens(walk: Seq<Seq<char>>)
    requires
        forall|i: int| 0 <= i < walk.len() ==> is_token(#[trigger] walk[i]),
    ensures
        tokens_of(join_spaced(walk)) == walk,
    decreases walk.len(),
{
    if walk.len() == 0 {
        assert(join_spaced(walk) == Seq::<char>::empty());
        assert(tokens_of(Seq::<char>::empty()) =~= Seq::<Seq<char>>::empty());
        assert(walk =~= Seq::<Seq<char>>::empty());
    } else {
        assert(is_token(walk[0]));
        lemma_tokens_acc_token_space(walk[0], join_spaced(walk.drop_first()), Seq::empty());
        assert forall|i: int| 0 <= i < walk.drop_first().len() implies is_token(
            #[trigger] walk.drop_first()[i],
        ) by {
            assert(walk.drop_first()[i] == walk[i + 1]);
        }
        lemma_join_tokens(walk.drop_first());
        assert(Seq::empty() + walk[0] =~= walk[0]);
        assert(seq![walk[0]] + walk.drop_first() =~= walk);
    }
}

/// What the random walk emits reads back as itself: a token sequence drawn
/// from a table of well-formed tokens, joined with one space after each
/// token, splits into exactly those tokens again.
pub proof fn lemma_generated_splits_back(t: TableV, walk: Seq<Seq<char>>)
    requires
        table_wf(t),
        table_tokens(t),
        is_walk(t, walk),
    ensures
        tokens_of(join_spaced(walk)) == walk,
{
    assert forall|i: int| 0 <= i < walk.len() implies is_token(#[trigger] walk[i]) by {
        if i == 0 {
            lemma_index_of_key(t.keys, walk[0]);
        } else {
            assert(walk_step(t, walk, i));
            let j = index_of_key(t.keys, walk[i - 1]);
            lemma_index_of_key(t.keys, walk[i - 1]);
            assert(t.lists[j].contains(walk[i]));
            let k = choose|k: int| 0 <= k < t.lists[j].len() && t.lists[j][k] == walk[i];
            assert(is_token(t.lists[j][k]));
        }
    }
    lemma_join_tokens(walk);
}

/// A first-order Markov chain model. Keys and their successor lists sit at
/// matching positions of the two vectors; no key repeats.
pub struct Markov {
    keys: Vec<String>,
    lists: Vec<Vec<String>>,
}

impl View for Markov {
    type V = TableV;

    closed spec fn view(&self) -> TableV {
        TableV { keys: self.keys.deep_view(), lists: self.lists.deep_view() }
    }
}

impl Markov {
    /// The representation invariant: one successor list per key, keys
    /// pairwise distinct, and every stored string a well-formed token.
    pub open spec fn wf(&self) -> bool {
        table_wf(self@) && table_tokens(self@)
    }

    /// A model with no keys at all.
    pub fn new() -> (m: Markov)
        ensures
            m.wf(),
            m@ == empty_table(),
    {
        let m = Markov { keys: Vec::new(), lists: Vec::new() };
        proof {
            assert(m@.keys =~= Seq::<Seq<char>>::empty());
            assert(m@.lists =~= Seq::<Seq<Seq<char>>>::empty());
            assert(m@ =~= empty_table());
        }
        m
    }

    /// Finds the position of `w` among the keys, or `None` when `w` was
    /// never observed as a predecessor.
    fn find_key(&self, w: &String) -> (r: Option<usize>)
        requires
            self.wf(),
        ensures
            match r {
                Some(j) => index_of_key(self@.keys, w@) == j as int,
                None => index_of_key(self@.keys, w@) == -1,
            },
    {
        let mut i: usize = 0;
        while i < self.keys.len()
            invariant
                self.wf(),
                i <= self@.keys.len(),
                forall|j: int| 0 <= j < i ==> self@.keys[j] != w@,
            decreases self@.keys.len() - i,
        {
            if self.keys[i] == *w {
                proof {
                    assert(self@.keys[i as int] == w@);
                    lemma_index_of_key(self@.keys, w@);
                }
                return Some(i);
            }
            i = i + 1;
        }
        proof {
            lemma_index_of_key(self@.keys, w@);
        }
        None
    }

    /// Trains the model on one string: every consecutive pair of
    /// whitespace-delimited tokens of `sentence` is recorded, in order, by
    /// appending the next token to the previous token's successor list. A
    /// string with fewer than two tokens changes nothing.
    pub fn add_string(&mut self, sentence: &str)
        requires
            old(self).wf(),
        ensures
            final(self).wf(),
            final(self)@ == train_str(old(self)@, sentence@),
    {
        let toks = tokenize(sentence);
        let ghost t0 = self@;
        let ghost ps = pairs_of(tokens_of(sentence@));
        if toks.len() < 2 {
            proof {
                assert(ps =~= Seq::<(Seq<char>, Seq<char>)>::empty());
            }
            return ;
        }
        let mut i: usize = 1;
        proof {
            assert(ps.take(0) =~= Seq::<(Seq<char>, Seq<char>)>::empty());
        }
        while i < toks.len()
            invariant
                self.wf(),
                1 <= i <= toks.len(),
                toks.deep_view() == tokens_of(sentence@),
                2 <= toks@.len(),
                ps == pairs_of(tokens_of(sentence@)),
                ps.len() == toks@.len() - 1,
                self@ == train_pairs(t0, ps.take(i - 1)),
            decreases toks@.len() - i,
        {
            let next = toks[i].clone();
            let ghost tcur = self@;
            let ghost prev_v = toks.deep_view()[i - 1];
            proof {
                assert(ps[i - 1] == (toks.deep_view()[i - 1], toks.deep_view()[i as int]));
                assert(next@ == toks.deep_view()[i as int]);
            }
            let r = self.find_key(&toks[i - 1]);
            match r {
                Some(j) => {
                    proof {
                        lemma_index_of_key(tcur.keys, prev_v);
                    }
                    let ghost old_list = self.lists@[j as int].deep_view();
                    self.lists[j].push(next);
                    proof {
                        assert(self.lists@[j as int].deep_view() =~= old_list.push(
                            toks.deep_view()[i as int],
                        ));
                        assert(self.lists.deep_view() =~= tcur.lists.update(
                            j as int,
                            tcur.lists[j as int].push(toks.deep_view()[i as int]),
                        ));
                        assert(self@ =~= train_pair(tcur, ps[i - 1].0, ps[i - 1].1));
                    }
                }
                None => {
                    let key = toks[i - 1].clone();
                    self.keys.push(key);
                    let mut l: Vec<String> = Vec::new();
                    l.push(next);
                    self.lists.push(l);
                    proof {
                        assert(l.deep_view() =~= seq![toks.deep_view()[i as int]]);
                        assert(self.keys.deep_view() =~= tcur.keys.push(prev_v));
                        assert(self.lists.deep_view() =~= tcur.lists.push(
                            seq![toks.deep_view()[i as int]],
                        ));
                        assert(self@ =~= train_pair(tcur, ps[i - 1].0, ps[i - 1].1));
                    }
                }
            }
            proof {
                lemma_tokens_of_are_tokens(sentence@);
                lemma_train_pair_wf(tcur, ps[i - 1].0, ps[i - 1].1);
                lemma_train_pair_tokens(tcur, ps[i - 1].0, ps[i - 1].1);
                lemma_train_pairs_append(t0, ps.take(i - 1), seq![ps[i - 1]]);
                assert(ps.take(i - 1) + seq![ps[i - 1]] =~= ps.take(i as int));
                assert(seq![ps[i - 1]].drop_first() =~= Seq::<(Seq<char>, Seq<char>)>::empty());
                assert(seq![ps[i - 1]][0] == ps[i - 1]);
                assert(train_pairs(
                    train_pair(tcur, ps[i - 1].0, ps[i - 1].1),
                    Seq::<(Seq<char>, Seq<char>)>::empty(),
                ) == train_pair(tcur, ps[i - 1].0, ps[i - 1].1));
                assert(train_pairs(tcur, seq![ps[i - 1]]) == train_pair(
                    tcur,
                    ps[i - 1].0,
                    ps[i - 1].1,
                ));
            }
            i = i + 1;
        }
        proof {
            assert(ps.take(ps.len() as int) =~= ps);
        }
    }

    /// Generates up to `words` tokens by a random walk: a uniformly random
    /// start among the keys, then repeated uniform picks from the current
    /// token's successor list, stopping early at a token that is no key.
    /// Every emitted token is followed by one space, the last included; a
    /// bound of zero or less, or a model with no keys, yields the empty
    /// string.
    pub fn generate(&self, words: i16) -> (r: String)
        requires
            self.wf(),
        ensures
            exists|walk: Seq<Seq<char>>|
                #![auto]
                is_walk(self@, walk) && walk.len() <= max_tokens(words) && r@ == join_spaced(walk)
                    && (0 < walk.len() < max_tokens(words) ==> dead_end(self@, walk.last())),
            words <= 0 ==> r@ == Seq::<char>::empty(),
            self@.keys.len() == 0 ==> r@ == Seq::<char>::empty(),
            words >= 1 && self@.keys.len() > 0 ==> r@.len() >= 1,
            tokens_of(r@).len() <= max_tokens(words),
    {
        let mut result = String::new();
        if words <= 0 || self.keys.len() == 0 {
            proof {
                let w0 = Seq::<Seq<char>>::empty();
                assert(is_walk(self@, w0) && w0.len() <= max_tokens(words) && result@
                    == join_spaced(w0) && (0 < w0.len() < max_tokens(words) ==> dead_end(
                    self@,
                    w0.last(),
                )));
                assert(tokens_of(result@) =~= Seq::<Seq<char>>::empty());
            }
            return result;
        }
        let ki = pick_index(self.keys.len());
        let mut current: String = self.keys[ki].clone();
        result.append(current.as_str());
        result.append(" ");
        let ghost mut walk: Seq<Seq<char>> = seq![current@];
        proof {
            assert(current@ == self@.keys[ki as int]);
            lemma_index_of_key(self@.keys, current@);
            reveal_strlit(" ");
            assert(" "@ =~= seq![' ']);
            assert(walk.drop_first() =~= Seq::<Seq<char>>::empty());
            assert(walk[0] == current@);
            assert(join_spaced(Seq::<Seq<char>>::empty()) == Seq::<char>::empty());
            assert(join_spaced(walk) == current@ + seq![' '] + Seq::<char>::empty());
            assert(result@ =~= join_spaced(walk));
        }
        let mut count: i16 = 1;
        while count < words
            invariant
                self.wf(),
                1 <= count <= words,
                is_walk(self@, walk),
                walk.len() == count as int,
                result@ == join_spaced(walk),
                current@ == walk.last(),
                1 <= words,
                0 < self@.keys.len(),
            decreases words - count,
        {
            let r = self.find_key(&current);
            match r {
                None => {
                    proof {
                        assert(dead_end(self@, walk.last()));
                        assert(is_walk(self@, walk) && walk.len() <= max_tokens(words) && result@
                            == join_spaced(walk) && (0 < walk.len() < max_tokens(words)
                            ==> dead_end(self@, walk.last())));
                        assert(join_spaced(walk) == walk[0] + seq![' '] + join_spaced(
                            walk.drop_first(),
                        ));
                        assert(result@.len() >= 1);
                        lemma_generated_splits_back(self@, walk);
                    }
                    return result;
                },
                Some(j) => {
                    proof {
                        lemma_index_of_key(self@.keys, current@);
                    }
                    if self.lists[j].len() == 0 {
                        proof {
                            assert(dead_end(self@, walk.last()));
                            assert(is_walk(self@, walk) && walk.len() <= max_tokens(words)
                                && result@ == join_spaced(walk) && (0 < walk.len() < max_tokens(
                                words,
                            ) ==> dead_end(self@, walk.last())));
                            assert(join_spaced(walk) == walk[0] + seq![' '] + join_spaced(
                                walk.drop_first(),
                            ));
                            assert(result@.len() >= 1);
                            lemma_generated_splits_back(self@, walk);
                        }
                        return result;
                    }
                    let si = pick_index(self.lists[j].len());
                    let next = self.lists[j][si].clone();
                    result.append(next.as_str());
                    result.append(" ");
                    let ghost walk0 = walk;
                    proof {
                        reveal_strlit(" ");
                        assert(" "@ =~= seq![' ']);
                        lemma_join_spaced_push(walk0, next@);
                        walk = walk0.push(next@);
                        assert(result@ == join_spaced(walk0) + next@ + " "@);
                        assert(join_spaced(walk) == join_spaced(walk0) + next@ + seq![' ']);
                        assert(result@ =~= join_spaced(walk));
                        assert(next@ == self@.lists[j as int][si as int]);
                        assert(self@.lists[j as int].contains(next@));
                        assert forall|i: int| 0 < i < walk.len() implies #[trigger] walk_step(
                            self@,
                            walk,
                            i,
                        ) by {
                            if i < walk0.len() {
                                assert(walk[i] == walk0[i]);
                                assert(walk[i - 1] == walk0[i - 1]);
                                assert(walk_step(self@, walk0, i));
                            } else {
                                assert(walk[i - 1] == walk0.last());
                                assert(walk[i] == next@);
                                assert(index_of_key(self@.keys, walk[i - 1]) == j as int);
                            }
                        }
                        assert(walk[0] == walk0[0]);
                    }
                    current = next;
                    count = count + 1;
                },
            }
        }
        proof {
            assert(walk.len() == max_tokens(words));
            assert(is_walk(self@, walk) && walk.len() <= max_tokens(words) && result@
                == join_spaced(walk) && (0 < walk.len() < max_tokens(words) ==> dead_end(
                self@,
                walk.last(),
            )));
            assert(join_spaced(walk) == walk[0] + seq![' '] + join_spaced(walk.drop_first()));
            assert(result@.len() >= 1);
            lemma_generated_splits_back(self@, walk);
        }
        result
    }

    /// The number of distinct keys in the table.
    pub fn num_keys(&self) -> (n: usize)
        ensures
            n == self@.keys.len(),
    {
        self.keys.len()
    }

    /// The key at position `i`, in order of first observation.
    pub fn key_at(&self, i: usize) -> (k: &String)
        requires
            i < self@.keys.len(),
        ensures
            k@ == self@.keys[i as int],
    {
        &self.keys[i]
    }

    /// The successor list recorded for `key`, or `None` when `key` was
    /// never observed as a predecessor.
    pub fn successors_of(&self, key: &String) -> (r: Option<&Vec<String>>)
        requires
            self.wf(),
        ensures
            match r {
                Some(l) => index_of_key(self@.keys, key@) >= 0 && l.deep_view() == self@.lists[
                    index_of_key(self@.keys, key@)
                ],
                None => index_of_key(self@.keys, key@) == -1,
            },
    {
        let r = self.find_key(key);
        match r {
            Some(j) => {
                proof {
                    lemma_index_of_key(self@.keys, key@);
                }
                Some(&self.lists[j])
            },
            None => None,
        }
    }

    /// The total number of recorded observations, summed over all keys, or
    /// `None` when the sum does not fit a machine word.
    pub fn total_observed(&self) -> (r: Option<usize>)
        ensures
            match r {
                Some(n) => n == total_successors(self@.lists),
                None => total_successors(self@.lists) > usize::MAX,
            },
    {
        let mut acc: usize = 0;
        let mut i: usize = 0;
        proof {
            assert(self@.lists.skip(0) =~= self@.lists);
        }
        while i < self.lists.len()
            invariant
                i <= self@.lists.len(),
                acc + total_successors(self@.lists.skip(i as int)) == total_successors(
                    self@.lists,
                ),
            decreases self@.lists.len() - i,
        {
            proof {
                assert(self@.lists.skip(i as int)[0] == self@.lists[i as int]);
                assert(self@.lists.skip(i as int).drop_first() =~= self@.lists.skip(i + 1));
            }
            let step = self.lists[i].len();
            acc = match acc.checked_add(step) {
                Some(a) => a,
                None => {
                    return None;
                },
            };
            i = i + 1;
        }
        proof {
            assert(self@.lists.skip(self@.lists.len() as int) =~= Seq::<Seq<Seq<char>>>::empty());
        }
        Some(acc)
    }
}

} // verus!
