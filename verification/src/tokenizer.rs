//! Whitespace tokenization.
//!
//! A token is a maximal run of non-whitespace characters. `tokens_of` is the
//! mathematical description of splitting a string into tokens; `tokenize` is
//! the executable splitter, proved to match it.

use vstd::prelude::*;

verus! {

/// Whether `c` carries the Unicode `White_Space` property, the set of
/// characters that token boundaries are drawn at.
pub open spec fn is_space_char(c: char) -> bool {
    let u = c as u32;
    u == 0x20 || (0x09 <= u && u <= 0x0d) || u == 0x85 || u == 0xa0 || u == 0x1680 || (0x2000
        <= u && u <= 0x200a) || u == 0x2028 || u == 0x2029 || u == 0x202f || u == 0x205f || u
        == 0x3000
}

/// Executable test for `is_space_char`.
pub fn is_space(c: char) -> (r: bool)
    ensures
        r == is_space_char(c),
{
    let u = c as u32;
    u == 0x20 || (0x09 <= u && u <= 0x0d) || u == 0x85 || u == 0xa0 || u == 0x1680 || (0x2000 <= u
        && u <= 0x200a) || u == 0x2028 || u == 0x2029 || u == 0x202f || u == 0x205f || u == 0x3000
}

/// The tokens of `s`, with `cur` the partial token read so far: a left-to-right
/// scan that closes the current token at each whitespace character.
pub open spec fn tokens_acc(s: Seq<char>, cur: Seq<char>) -> Seq<Seq<char>>
    decreases s.len(),
{
    if s.len() == 0 {
        if cur.len() == 0 {
            Seq::empty()
        } else {
            seq![cur]
        }
    } else if is_space_char(s[0]) {
        if cur.len() == 0 {
            tokens_acc(s.drop_first(), Seq::empty())
        } else {
            seq![cur] + tokens_acc(s.drop_first(), Seq::empty())
        }
    } else {
        tokens_acc(s.drop_first(), cur.push(s[0]))
    }
}

/// The whitespace-delimited tokens of `s`, in order.
pub open spec fn tokens_of(s: Seq<char>) -> Seq<Seq<char>> {
    tokens_acc(s, Seq::empty())
}

/// A well-formed token: non-empty, with no whitespace inside.
pub open spec fn is_token(t: Seq<char>) -> bool {
    t.len() > 0 && forall|i: int| 0 <= i < t.len() ==> !is_space_char(#[trigger] t[i])
}

proof fn lemma_tokens_acc_are_tokens(s: Seq<char>, cur: Seq<char>)
    requires
        forall|i: int| 0 <= i < cur.len() ==> !is_space_char(#[trigger] cur[i]),
    ensures
        forall|i: int|
            0 <= i < tokens_acc(s, cur).len() ==> is_token(#[trigger] tokens_acc(s, cur)[i]),
    decreases s.len(),
{
    let res = tokens_acc(s, cur);
    if s.len() == 0 {
        if cur.len() > 0 {
            assert(res == seq![cur]);
            assert forall|i: int| 0 <= i < res.len() implies is_token(#[trigger] res[i]) by {
                assert(res[i] == cur);
                assert(is_token(cur));
            }
        }
    } else if is_space_char(s[0]) {
        lemma_tokens_acc_are_tokens(s.drop_first(), Seq::empty());
        let rec = tokens_acc(s.drop_first(), Seq::empty());
        if cur.len() > 0 {
            assert(res == seq![cur] + rec);
            assert forall|i: int| 0 <= i < res.len() implies is_token(#[trigger] res[i]) by {
                if i == 0 {
                    assert(res[i] == cur);
                    assert(is_token(cur));
                } else {
                    assert(res[i] == rec[i - 1]);
                    assert(is_token(rec[i - 1]));
                }
            }
        } else {
            assert(res == rec);
            assert forall|i: int| 0 <= i < res.len() implies is_token(#[trigger] res[i]) by {
                assert(is_token(rec[i]));
            }
        }
    } else {
        let cur2 = cur.push(s[0]);
        assert forall|i: int| 0 <= i < cur2.len() implies !is_space_char(#[trigger] cur2[i]) by {
            if i < cur.len() {
                assert(cur2[i] == cur[i]);
            } else {
                assert(cur2[i] == s[0]);
            }
        }
        lemma_tokens_acc_are_tokens(s.drop_first(), cur2);
        let rec = tokens_acc(s.drop_first(), cur2);
        assert(res == rec);
        assert forall|i: int| 0 <= i < res.len() implies is_token(#[trigger] res[i]) by {
            assert(is_token(rec[i]));
        }
    }
}

/// Every token that splitting yields is non-empty and free of whitespace.
pub proof fn lemma_tokens_of_are_tokens(s: Seq<char>)
    ensures
        forall|i: int| 0 <= i < tokens_of(s).len() ==> is_token(#[trigger] tokens_of(s)[i]),
{
    lemma_tokens_acc_are_tokens(s, Seq::empty());
}

/// The consecutive (previous, next) pairs of a token sequence: none for fewer
/// than two tokens, otherwise one pair per adjacent position.
pub open spec fn pairs_of(toks: Seq<Seq<char>>) -> Seq<(Seq<char>, Seq<char>)> {
    if toks.len() == 0 {
        Seq::empty()
    } else {
        Seq::new((toks.len() - 1) as nat, |i: int| (toks[i], toks[i + 1]))
    }
}

/// The consecutive (previous, next) token pairs of `s`, in order: exactly
/// what training on `s` records. A string with fewer than two tokens yields
/// no pair.
pub fn pairs(s: &str) -> (r: Vec<(String, String)>)
    ensures
        r@.len() == pairs_of(tokens_of(s@)).len(),
        forall|i: int|
            0 <= i < r@.len() ==> (#[trigger] r@[i]).0@ == pairs_of(
                tokens_of(s@),
            )[i].0 && r@[i].1@ == pairs_of(tokens_of(s@))[i].1,
{
    let ghost ps = pairs_of(tokens_of(s@));
    let toks = tokenize(s);
    let mut r: Vec<(String, String)> = Vec::new();
    if toks.len() < 2 {
        return r;
    }
    let mut i: usize = 1;
    while i < toks.len()
        invariant
            toks.deep_view() == tokens_of(s@),
            2 <= toks@.len(),
            ps == pairs_of(tokens_of(s@)),
            ps.len() == toks@.len() - 1,
            1 <= i <= toks@.len(),
            r@.len() == i - 1,
            forall|k: int|
                0 <= k < r@.len() ==> (#[trigger] r@[k]).0@ == ps[k].0 && r@[k].1@ == ps[k].1,
        decreases toks@.len() - i,
    {
        let prev = toks[i - 1].clone();
        let next = toks[i].clone();
        r.push((prev, next));
        i = i + 1;
    }
    r
}

/// Splits `s` into its whitespace-delimited tokens.
pub fn tokenize(s: &str) -> (toks: Vec<String>)
    ensures
        toks.deep_view() == tokens_of(s@),
{
    let n = s.unicode_len();
    let mut toks: Vec<String> = Vec::new();
    let mut start: usize = 0;
    let mut in_token: bool = false;
    let mut i: usize = 0;
    proof {
        assert(s@.skip(0) =~= s@);
        assert(toks.deep_view() =~= Seq::<Seq<char>>::empty());
        assert(Seq::<Seq<char>>::empty() + tokens_of(s@) =~= tokens_of(s@));
    }
    while i < n
        invariant
            n == s@.len(),
            i <= n,
            in_token ==> start < i,
            in_token ==> tokens_of(s@) == toks.deep_view() + tokens_acc(
                s@.skip(i as int),
                s@.subrange(start as int, i as int),
            ),
            !in_token ==> tokens_of(s@) == toks.deep_view() + tokens_acc(
                s@.skip(i as int),
                Seq::empty(),
            ),
        decreases n - i,
    {
        let c = s.get_char(i);
        proof {
            assert(s@.skip(i as int)[0] == s@[i as int]);
            assert(s@.skip(i as int).drop_first() =~= s@.skip(i + 1));
        }
        if is_space(c) {
            if in_token {
                let tok = s.substring_char(start, i).to_owned();
                let ghost toks0 = toks.deep_view();
                toks.push(tok);
                proof {
                    let cur = s@.subrange(start as int, i as int);
                    assert(cur.len() > 0);
                    assert(toks.deep_view() =~= toks0.push(cur));
                    assert(tokens_acc(s@.skip(i as int), cur) == seq![cur] + tokens_acc(
                        s@.skip(i + 1),
                        Seq::empty(),
                    ));
                    assert(toks0.push(cur) + tokens_acc(s@.skip(i + 1), Seq::empty()) =~= toks0 + (
                    seq![cur] + tokens_acc(s@.skip(i + 1), Seq::empty())));
                }
                in_token = false;
            }
        } else {
            if !in_token {
                start = i;
                in_token = true;
                proof {
                    assert(s@.subrange(i as int, i + 1) =~= Seq::empty().push(s@[i as int]));
                }
            } else {
                proof {
                    assert(s@.subrange(start as int, i + 1) =~= s@.subrange(
                        start as int,
                        i as int,
                    ).push(s@[i as int]));
                }
            }
        }
        i = i + 1;
    }
    if in_token {
        let tok = s.substring_char(start, n).to_owned();
        let ghost toks0 = toks.deep_view();
        toks.push(tok);
        proof {
            let cur = s@.subrange(start as int, n as int);
            assert(s@.skip(n as int) =~= Seq::<char>::empty());
            assert(tokens_acc(s@.skip(n as int), cur) == seq![cur]);
            assert(toks.deep_view() =~= toks0 + seq![cur]);
        }
    }
    proof {
        assert(s@.skip(n as int) =~= Seq::<char>::empty());
    }
    toks
}

} // verus!
