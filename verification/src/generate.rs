//! The sentence sampler: a biased random walk over a member's transition
//! graph, assembled into a sentence.

use vstd::prelude::*;

use crate::entities::{MemberWord, Word};
use crate::errors::MarkovFetchResultError;
use crate::interface::DbInterface;
use crate::model;
use crate::rng::random_below;

verus! {

use vstd::string::StringExecFns;

/// The sampler's result agrees with the walk that these choices determine:
/// a completed walk yields its rendered sentence, a stopped walk the
/// failure carrying the requested length and the count of tokens collected.
pub open spec fn sentence_result_matches(
    mw: Seq<MemberWord>,
    ws: Seq<Word>,
    member_id: u32,
    desired: u8,
    seed: u64,
    choices: Seq<(u64, u64)>,
    r: Result<String, MarkovFetchResultError>,
) -> bool {
    match model::walk(mw, member_id, seed, choices) {
        Ok(ids) => r matches Ok(out) && out@ == model::render(ws, ids),
        Err(ids) => r == Err::<String, MarkovFetchResultError>(
            MarkovFetchResultError::NotEnoughWords(desired, ids.len() as u32),
        ),
    }
}

impl DbInterface {
    /// Returns how many edges the member owns.
    fn member_edge_count(&self, member_id: u32) -> (r: usize)
        ensures
            r == model::edges_of(self.member_words@, member_id).len(),
    {
        let n = self.member_words.len();
        let mut cnt: usize = 0;
        let mut j: usize = 0;
        while j < n
            invariant
                n == self.member_words@.len(),
                j <= n,
                cnt == model::edges_of(self.member_words@.take(j as int), member_id).len(),
            decreases n - j,
        {
            proof {
                assert(self.member_words@.take(j + 1).drop_last() =~= self.member_words@.take(
                    j as int,
                ));
                assert(self.member_words@.take(j + 1).last() == self.member_words@[j as int]);
                model::lemma_edges_of_len(self.member_words@.take(j as int), member_id);
            }
            if self.member_words[j].member_id == member_id {
                cnt = cnt + 1;
            }
            j = j + 1;
        }
        proof {
            assert(self.member_words@.take(n as int) =~= self.member_words@);
        }
        cnt
    }

    /// Returns the member's edge at this position of their edge list.
    fn member_edge_at(&self, member_id: u32, idx: usize) -> (r: MemberWord)
        requires
            idx < model::edges_of(self.member_words@, member_id).len(),
        ensures
            r == model::edges_of(self.member_words@, member_id)[idx as int],
    {
        let ghost es = model::edges_of(self.member_words@, member_id);
        let n = self.member_words.len();
        let mut cnt: usize = 0;
        let mut j: usize = 0;
        while j < n
            invariant
                n == self.member_words@.len(),
                j <= n,
                cnt <= idx,
                idx < es.len(),
                es == model::edges_of(self.member_words@, member_id),
                cnt == model::edges_of(self.member_words@.take(j as int), member_id).len(),
            decreases n - j,
        {
            proof {
                assert(self.member_words@.take(j + 1).drop_last() =~= self.member_words@.take(
                    j as int,
                ));
                assert(self.member_words@.take(j + 1).last() == self.member_words@[j as int]);
                model::lemma_edges_of_take(self.member_words@, member_id, j as int);
                model::lemma_edges_of_take(self.member_words@, member_id, j + 1);
            }
            if self.member_words[j].member_id == member_id {
                if cnt == idx {
                    proof {
                        let lo = cnt as int;
                        assert(model::edges_of(self.member_words@.take(j + 1), member_id)
                            == model::edges_of(self.member_words@.take(j as int), member_id).push(
                            self.member_words@[j as int],
                        ));
                        let hi = model::edges_of(
                            self.member_words@.take(j + 1),
                            member_id,
                        ).len() as int;
                        assert(hi == lo + 1);
                        assert(es.take(hi)[lo] == es[lo]);
                        assert(model::edges_of(self.member_words@.take(j + 1), member_id)[lo]
                            == self.member_words@[j as int]);
                        assert(es[idx as int] == self.member_words@[j as int]);
                    }
                    return self.member_words[j];
                }
                cnt = cnt + 1;
            }
            j = j + 1;
        }
        proof {
            assert(self.member_words@.take(n as int) =~= self.member_words@);
            assert(false);
        }
        MemberWord { word_id: 0, member_id: 0, next_word_id: 0, frequency: 1 }
    }

    /// Returns the index of the dictionary row with this word id.
    fn word_index_by_id(&self, word_id: u32) -> (r: usize)
        requires
            model::has_word_id(self.words@, word_id),
        ensures
            r < self.words@.len(),
            self.words@[r as int].word_id == word_id,
    {
        let n = self.words.len();
        let mut j: usize = 0;
        while j < n
            invariant
                n == self.words@.len(),
                j <= n,
                model::has_word_id(self.words@, word_id),
                forall|k: int| 0 <= k < j ==> self.words@[k].word_id != word_id,
            decreases n - j,
        {
            if self.words[j].word_id == word_id {
                return j;
            }
            j = j + 1;
        }
        proof {
            let w = choose|w: int| 0 <= w < self.words@.len() && self.words@[w].word_id == word_id;
            assert(false);
        }
        0
    }

    /// Returns one edge of the member, chosen at random among their edges,
    /// or nothing when the member has none. Beyond membership, which edge
    /// comes back is not specified.
    pub fn random_edge(&self, member_id: u32) -> (r: Option<(u32, u32)>)
        requires
            self.wf(),
        ensures
            r is Some <==> model::edges_of(self.member_words@, member_id).len() > 0,
            r matches Some(p) ==> exists|j: int|
                0 <= j < model::edges_of(self.member_words@, member_id).len() && (
                #[trigger] model::edges_of(self.member_words@, member_id)[j]).word_id == p.0
                    && model::edges_of(self.member_words@, member_id)[j].next_word_id == p.1,
    {
        let cnt = self.member_edge_count(member_id);
        if cnt == 0 {
            None
        } else {
            let pick = random_below(cnt as u64);
            let idx = pick as usize;
            proof {
                assert(idx < cnt);
            }
            let e = self.member_edge_at(member_id, idx);
            proof {
                assert(model::edges_of(self.member_words@, member_id)[idx as int] == e);
            }
            Some((e.word_id, e.next_word_id))
        }
    }

    /// Among the member's successors of `word_id` whose frequency exceeds
    /// the threshold, returns the one the choice selects (the choice is
    /// reduced modulo their number), or nothing when none qualifies.
    pub fn weighted_successor(
        &self,
        member_id: u32,
        word_id: u32,
        threshold: u64,
        choice: u64,
    ) -> (r: Option<u32>)
        requires
            self.wf(),
        ensures
            r is None <==> model::succs(self.member_words@, member_id, word_id, threshold).len()
                == 0,
            r matches Some(t) ==> ({
                let q = model::succs(self.member_words@, member_id, word_id, threshold);
                q.len() > 0 && t == q[choice as int % q.len() as int]
            }),
    {
        let n = self.member_words.len();
        let mut q: Vec<u32> = Vec::new();
        let mut j: usize = 0;
        while j < n
            invariant
                n == self.member_words@.len(),
                j <= n,
                q@ == model::succs(
                    self.member_words@.take(j as int),
                    member_id,
                    word_id,
                    threshold,
                ),
            decreases n - j,
        {
            proof {
                assert(self.member_words@.take(j + 1).drop_last() =~= self.member_words@.take(
                    j as int,
                ));
                assert(self.member_words@.take(j + 1).last() == self.member_words@[j as int]);
            }
            let e = self.member_words[j];
            if e.member_id == member_id && e.word_id == word_id && e.frequency > threshold {
                q.push(e.next_word_id);
            }
            j = j + 1;
        }
        proof {
            assert(self.member_words@.take(n as int) =~= self.member_words@);
        }
        if q.len() == 0 {
            None
        } else {
            let idx = (choice % (q.len() as u64)) as usize;
            proof {
                assert(idx < q.len());
                assert(idx as int == choice as int % q@.len() as int);
            }
            Some(q[idx])
        }
    }

    /// Deterministically assembles a sentence from the member's graph using
    /// the given choices: the seed choice selects the first edge, whose two
    /// tokens start the sentence, and each `(threshold, pick)` step selects
    /// a successor of the last token whose frequency exceeds the threshold.
    /// The outcome is exactly the one the choices determine: the sentence
    /// joins the walked tokens' texts with single spaces, and a walk that
    /// stops early reports how many tokens it had collected.
    pub fn fetch_sentence_with_choices(
        &self,
        member_id: u32,
        desired_sentence_length: u8,
        seed_choice: u64,
        step_choices: &Vec<(u64, u64)>,
    ) -> (r: Result<String, MarkovFetchResultError>)
        requires
            self.wf(),
            desired_sentence_length >= 2,
            step_choices@.len() == desired_sentence_length - 2,
        ensures
            sentence_result_matches(
                self.member_words@,
                self.words@,
                member_id,
                desired_sentence_length,
                seed_choice,
                step_choices@,
                r,
            ),
    {
        let ghost w = model::walk(self.member_words@, member_id, seed_choice, step_choices@);
        let cnt = self.member_edge_count(member_id);
        if cnt == 0 {
            proof {
                assert(w == Err::<Seq<u32>, Seq<u32>>(Seq::empty()));
            }
            return Err(MarkovFetchResultError::NotEnoughWords(desired_sentence_length, 0));
        }
        let idx = (seed_choice % (cnt as u64)) as usize;
        proof {
            assert(idx < cnt);
            assert(idx as int == seed_choice as int % model::edges_of(
                self.member_words@,
                member_id,
            ).len() as int);
        }
        let e = self.member_edge_at(member_id, idx);
        let mut word_ids: Vec<u32> = Vec::new();
        word_ids.push(e.word_id);
        word_ids.push(e.next_word_id);
        proof {
            model::lemma_edges_of_elem(self.member_words@, member_id, idx as int);
            let jj = choose|jj: int|
                0 <= jj < self.member_words@.len() && self.member_words@[jj] == model::edges_of(
                    self.member_words@,
                    member_id,
                )[idx as int] && self.member_words@[jj].member_id == member_id;
            assert(model::has_word_id(self.words@, self.member_words@[jj].word_id));
            assert(model::has_word_id(self.words@, self.member_words@[jj].next_word_id));
            assert(word_ids@ =~= seq![e.word_id, e.next_word_id]);
            assert(step_choices@.skip(0) =~= step_choices@);
        }
        let steps = step_choices.len();
        let mut i: usize = 0;
        while i < steps
            invariant
                self.wf(),
                steps == step_choices@.len(),
                steps == desired_sentence_length - 2,
                desired_sentence_length >= 2,
                i <= steps,
                word_ids@.len() == i + 2,
                forall|k: int|
                    0 <= k < word_ids@.len() ==> model::has_word_id(
                        self.words@,
                        #[trigger] word_ids@[k],
                    ),
                w == model::walk(self.member_words@, member_id, seed_choice, step_choices@),
                model::walk_from(
                    self.member_words@,
                    member_id,
                    word_ids@,
                    step_choices@.skip(i as int),
                ) == w,
            decreases steps - i,
        {
            let th = step_choices[i].0;
            let c = step_choices[i].1;
            let last = word_ids[word_ids.len() - 1];
            proof {
                assert(step_choices@.skip(i as int)[0] == step_choices@[i as int]);
                assert(step_choices@.skip(i as int).drop_first() =~= step_choices@.skip(i + 1));
                assert(word_ids@.last() == last);
            }
            match self.weighted_successor(member_id, last, th, c) {
                Some(t) => {
                    proof {
                        let q = model::succs(self.member_words@, member_id, last, th);
                        model::lemma_succs_elem(
                            self.member_words@,
                            member_id,
                            last,
                            th,
                            c as int % q.len() as int,
                        );
                        let jj = choose|jj: int|
                            0 <= jj < self.member_words@.len() && model::qualifies(
                                self.member_words@[jj],
                                member_id,
                                last,
                                th,
                            ) && self.member_words@[jj].next_word_id == q[c as int % q.len()
                                as int];
                        assert(model::has_word_id(
                            self.words@,
                            self.member_words@[jj].next_word_id,
                        ));
                    }
                    word_ids.push(t);
                },
                None => {
                    return Err(MarkovFetchResultError::NotEnoughWords(
                        desired_sentence_length,
                        word_ids.len() as u32,
                    ));
                },
            }
            i = i + 1;
        }
        proof {
            assert(step_choices@.skip(steps as int) =~= Seq::<(u64, u64)>::empty());
            assert(w == Ok::<Seq<u32>, Seq<u32>>(word_ids@));
        }
        let total = word_ids.len();
        let mut out = String::new();
        let mut k: usize = 0;
        while k < total
            invariant
                self.wf(),
                total == word_ids@.len(),
                k <= total,
                forall|x: int|
                    0 <= x < word_ids@.len() ==> model::has_word_id(
                        self.words@,
                        #[trigger] word_ids@[x],
                    ),
                out@ == model::render(self.words@, word_ids@.take(k as int)),
            decreases total - k,
        {
            proof {
                assert(word_ids@.take(k + 1).drop_last() =~= word_ids@.take(k as int));
                assert(word_ids@.take(k + 1).last() == word_ids@[k as int]);
            }
            if k > 0 {
                out.append(" ");
                proof {
                    reveal_strlit(" ");
                    assert(" "@ =~= seq![' ']);
                }
            }
            let wi = self.word_index_by_id(word_ids[k]);
            proof {
                model::lemma_word_id_at(self.words@, wi as int);
            }
            out.append(self.words[wi].word.as_str());
            k = k + 1;
        }
        proof {
            assert(word_ids@.take(total as int) =~= word_ids@);
        }
        Ok(out)
    }

    /// Fetches weighted random words for the member and joins them into a
    /// sentence of the desired length. The walk starts at a random edge of
    /// the member and each further token must beat a random share of the
    /// member's total outgoing weight, computed once up front. Whatever the
    /// random draws, the result is one that some sequence of choices
    /// determines; a member without edges always fails with no tokens.
    pub fn fetch_random_member_words_into_sentence(
        &self,
        member_id: u32,
        desired_sentence_length: u8,
    ) -> (r: Result<String, MarkovFetchResultError>)
        requires
            self.wf(),
            desired_sentence_length >= 2,
        ensures
            model::edges_of(self.member_words@, member_id).len() == 0 ==> r == Err::<
                String,
                MarkovFetchResultError,
            >(MarkovFetchResultError::NotEnoughWords(desired_sentence_length, 0)),
            exists|seed: u64, choices: Seq<(u64, u64)>|
                choices.len() == desired_sentence_length - 2
                    && #[trigger] sentence_result_matches(
                    self.member_words@,
                    self.words@,
                    member_id,
                    desired_sentence_length,
                    seed,
                    choices,
                    r,
                ),
    {
        let cnt = self.member_edge_count(member_id);
        let steps = (desired_sentence_length - 2) as usize;
        if cnt == 0 {
            let r = Err(MarkovFetchResultError::NotEnoughWords(desired_sentence_length, 0));
            proof {
                let ghost choices = Seq::new(steps as nat, |i: int| (0u64, 0u64));
                assert(model::walk(self.member_words@, member_id, 0, choices) == Err::<
                    Seq<u32>,
                    Seq<u32>,
                >(Seq::empty()));
                assert(sentence_result_matches(
                    self.member_words@,
                    self.words@,
                    member_id,
                    desired_sentence_length,
                    0,
                    choices,
                    r,
                ));
            }
            return r;
        }
        let seed = random_below(cnt as u64);
        let sum = self.sum_frequency(member_id);
        proof {
            model::lemma_edges_of_elem(self.member_words@, member_id, 0);
            let jj = choose|jj: int|
                0 <= jj < self.member_words@.len() && self.member_words@[jj] == model::edges_of(
                    self.member_words@,
                    member_id,
                )[0] && self.member_words@[jj].member_id == member_id;
            model::lemma_member_freq_le_sum(self.member_words@, member_id, jj);
            assert(sum >= 1);
        }
        let mut choices: Vec<(u64, u64)> = Vec::new();
        let mut i: usize = 0;
        while i < steps
            invariant
                i <= steps,
                choices@.len() == i,
                sum >= 1,
            decreases steps - i,
        {
            let th = random_below(sum);
            let c = random_below(u64::MAX);
            choices.push((th, c));
            i = i + 1;
        }
        let r = self.fetch_sentence_with_choices(
            member_id,
            desired_sentence_length,
            seed,
            &choices,
        );
        proof {
            assert(choices@.len() == desired_sentence_length - 2);
            assert(sentence_result_matches(
                self.member_words@,
                self.words@,
                member_id,
                desired_sentence_length,
                seed,
                choices@,
                r,
            ));
        }
        r
    }
}

/// Law: a member without edges supplies no sentence. Whatever the choices,
/// the walk fails at once with no tokens collected.
pub proof fn lemma_walk_empty_graph(s: Seq<MemberWord>, m: u32, seed: u64, choices: Seq<(u64, u64)>)
    requires
        model::edges_of(s, m).len() == 0,
    ensures
        model::walk(s, m, seed, choices) == Err::<Seq<u32>, Seq<u32>>(Seq::empty()),
{
}

/// What the successors of a three-row edge list are: each row contributes
/// its target exactly when it qualifies, in row order.
proof fn lemma_succs_of_three(
    es: Seq<MemberWord>,
    e0: MemberWord,
    e1: MemberWord,
    e2: MemberWord,
    m: u32,
    f: u32,
    th: u64,
)
    requires
        es == seq![e0, e1, e2],
    ensures
        model::succs(es, m, f, th) == (if model::qualifies(e0, m, f, th) {
            seq![e0.next_word_id]
        } else {
            Seq::<u32>::empty()
        }) + (if model::qualifies(e1, m, f, th) {
            seq![e1.next_word_id]
        } else {
            Seq::<u32>::empty()
        }) + (if model::qualifies(e2, m, f, th) {
            seq![e2.next_word_id]
        } else {
            Seq::<u32>::empty()
        }),
{
    let emp = Seq::<MemberWord>::empty();
    let s1 = seq![e0];
    let s2 = seq![e0, e1];
    assert(es.drop_last() =~= s2);
    assert(es.last() == e2);
    assert(s2.drop_last() =~= s1);
    assert(s2.last() == e1);
    assert(s1.drop_last() =~= emp);
    assert(s1.last() == e0);
    assert(model::succs(emp, m, f, th) =~= Seq::<u32>::empty());
    let q0 = if model::qualifies(e0, m, f, th) {
        seq![e0.next_word_id]
    } else {
        Seq::<u32>::empty()
    };
    let q1 = if model::qualifies(e1, m, f, th) {
        seq![e1.next_word_id]
    } else {
        Seq::<u32>::empty()
    };
    let q2 = if model::qualifies(e2, m, f, th) {
        seq![e2.next_word_id]
    } else {
        Seq::<u32>::empty()
    };
    assert(model::succs(s1, m, f, th) =~= q0);
    assert(model::succs(s2, m, f, th) =~= q0 + q1);
    assert(model::succs(es, m, f, th) =~= q0 + q1 + q2);
}

/// Law: a member whose only edge leads to a token without outgoing edges
/// dead-ends. Whatever the choices, a walk asked to go past the edge's two
/// tokens collects exactly those two and stops.
pub proof fn lemma_walk_dead_end(s: Seq<MemberWord>, m: u32, seed: u64, choices: Seq<(u64, u64)>)
    requires
        model::edges_of(s, m).len() == 1,
        model::edges_of(s, m)[0].word_id != model::edges_of(s, m)[0].next_word_id,
        choices.len() >= 1,
    ensures
        model::walk(s, m, seed, choices) == Err::<Seq<u32>, Seq<u32>>(
            seq![model::edges_of(s, m)[0].word_id, model::edges_of(s, m)[0].next_word_id],
        ),
{
    let es = model::edges_of(s, m);
    let e = es[0];
    assert(seed as int % es.len() as int == 0);
    let acc = seq![e.word_id, e.next_word_id];
    let th = choices[0].0;
    model::lemma_succs_via_edges(s, m, e.next_word_id, th);
    assert(es.drop_last() =~= Seq::<MemberWord>::empty());
    assert(es.last() == e);
    assert(model::succs(Seq::<MemberWord>::empty(), m, e.next_word_id, th) =~= Seq::<
        u32,
    >::empty());
    assert(!model::qualifies(e, m, e.next_word_id, th));
    assert(model::succs(es, m, e.next_word_id, th) =~= Seq::<u32>::empty());
    assert(acc.last() == e.next_word_id);
    assert(model::walk_from(s, m, acc, choices) == Err::<Seq<u32>, Seq<u32>>(acc));
}

/// Law: when a member's graph is the simple chain `a -> b -> c -> d`, with
/// out-degree at most one everywhere, the only sentence a walk over four
/// tokens can complete is the chain itself: whatever the choices, the walk
/// either stops early or returns exactly `a b c d`.
pub proof fn lemma_walk_single_path(
    s: Seq<MemberWord>,
    m: u32,
    seed: u64,
    choices: Seq<(u64, u64)>,
    a: u32,
    b: u32,
    c: u32,
    d: u32,
)
    requires
        model::edges_of(s, m).len() == 3,
        model::edges_of(s, m)[0].word_id == a,
        model::edges_of(s, m)[0].next_word_id == b,
        model::edges_of(s, m)[1].word_id == b,
        model::edges_of(s, m)[1].next_word_id == c,
        model::edges_of(s, m)[2].word_id == c,
        model::edges_of(s, m)[2].next_word_id == d,
        a != b && a != c && a != d && b != c && b != d && c != d,
        choices.len() == 2,
    ensures
        model::walk(s, m, seed, choices) matches Ok(ids) ==> ids == seq![a, b, c, d],
{
    let es = model::edges_of(s, m);
    let e0 = es[0];
    let e1 = es[1];
    let e2 = es[2];
    assert(es =~= seq![e0, e1, e2]);
    let th0 = choices[0].0;
    let p0 = choices[0].1;
    let th1 = choices[1].0;
    let rest = choices.drop_first();
    assert(rest[0] == choices[1]);
    assert(rest.drop_first() =~= Seq::<(u64, u64)>::empty());
    // successors from each token, for each step's threshold
    model::lemma_succs_via_edges(s, m, b, th0);
    model::lemma_succs_via_edges(s, m, c, th0);
    model::lemma_succs_via_edges(s, m, d, th0);
    model::lemma_succs_via_edges(s, m, b, th1);
    model::lemma_succs_via_edges(s, m, c, th1);
    model::lemma_succs_via_edges(s, m, d, th1);
    lemma_succs_of_three(es, e0, e1, e2, m, b, th0);
    lemma_succs_of_three(es, e0, e1, e2, m, c, th0);
    lemma_succs_of_three(es, e0, e1, e2, m, d, th0);
    lemma_succs_of_three(es, e0, e1, e2, m, b, th1);
    lemma_succs_of_three(es, e0, e1, e2, m, c, th1);
    lemma_succs_of_three(es, e0, e1, e2, m, d, th1);
    let emp = Seq::<u32>::empty();
    let k = seed as int % es.len() as int;
    assert(0 <= k < 3);
    let acc = seq![es[k].word_id, es[k].next_word_id];
    assert(model::walk(s, m, seed, choices) == model::walk_from(s, m, acc, choices));
    if k == 0 {
        assert(acc =~= seq![a, b]);
        assert(acc.last() == b);
        let q = model::succs(s, m, b, th0);
        assert(!model::qualifies(e0, m, b, th0));
        assert(!model::qualifies(e2, m, b, th0));
        if q.len() == 0 {
            assert(model::walk_from(s, m, acc, choices) == Err::<Seq<u32>, Seq<u32>>(acc));
        } else {
            assert(model::qualifies(e1, m, b, th0));
            assert(q =~= seq![c]);
            assert(q[p0 as int % q.len() as int] == c);
            let acc1 = acc.push(q[p0 as int % q.len() as int]);
            assert(model::walk_from(s, m, acc, choices) == model::walk_from(s, m, acc1, rest));
            assert(acc1.last() == c);
            let q1 = model::succs(s, m, c, th1);
            assert(!model::qualifies(e0, m, c, th1));
            assert(!model::qualifies(e1, m, c, th1));
            if q1.len() == 0 {
                assert(model::walk_from(s, m, acc1, rest) == Err::<Seq<u32>, Seq<u32>>(acc1));
            } else {
                assert(model::qualifies(e2, m, c, th1));
                assert(q1 =~= seq![d]);
                let p1 = rest[0].1;
                let acc2 = acc1.push(q1[p1 as int % q1.len() as int]);
                assert(model::walk_from(s, m, acc1, rest) == model::walk_from(
                    s,
                    m,
                    acc2,
                    rest.drop_first(),
                ));
                assert(model::walk_from(s, m, acc2, rest.drop_first()) == Ok::<
                    Seq<u32>,
                    Seq<u32>,
                >(acc2));
                assert(acc2 =~= seq![a, b, c, d]);
            }
        }
    } else if k == 1 {
        assert(acc =~= seq![b, c]);
        assert(acc.last() == c);
        let q = model::succs(s, m, c, th0);
        assert(!model::qualifies(e0, m, c, th0));
        assert(!model::qualifies(e1, m, c, th0));
        if q.len() == 0 {
            assert(model::walk_from(s, m, acc, choices) == Err::<Seq<u32>, Seq<u32>>(acc));
        } else {
            assert(model::qualifies(e2, m, c, th0));
            assert(q =~= seq![d]);
            let acc1 = acc.push(q[p0 as int % q.len() as int]);
            assert(model::walk_from(s, m, acc, choices) == model::walk_from(s, m, acc1, rest));
            assert(acc1.last() == d);
            let q1 = model::succs(s, m, d, th1);
            assert(!model::qualifies(e0, m, d, th1));
            assert(!model::qualifies(e1, m, d, th1));
            assert(!model::qualifies(e2, m, d, th1));
            assert(q1 =~= emp);
            assert(model::walk_from(s, m, acc1, rest) == Err::<Seq<u32>, Seq<u32>>(acc1));
        }
    } else {
        assert(acc =~= seq![c, d]);
        assert(acc.last() == d);
        let q = model::succs(s, m, d, th0);
        assert(!model::qualifies(e0, m, d, th0));
        assert(!model::qualifies(e1, m, d, th0));
        assert(!model::qualifies(e2, m, d, th0));
        assert(q =~= emp);
        assert(model::walk_from(s, m, acc, choices) == Err::<Seq<u32>, Seq<u32>>(acc));
    }
}

} // verus!
