//! The mathematical model of the transition store: how the word dictionary
//! and the per-member weighted edge list are read in specifications, and the
//! random-walk function that the sentence sampler implements.

use vstd::prelude::*;

use crate::entities::{Channel, Member, MemberWord, Server, TrackedChannel, TrackedMember, Users, Word};

verus! {

// ---------------------------------------------------------------------------
// Word dictionary
// ---------------------------------------------------------------------------

/// Some dictionary row carries exactly this text.
pub open spec fn has_word_text(ws: Seq<Word>, t: Seq<char>) -> bool {
    exists|j: int| 0 <= j < ws.len() && ws[j].word@ == t
}

/// The id of the dictionary row carrying this text (meaningful only when
/// `has_word_text` holds and texts are distinct).
pub open spec fn word_id_of(ws: Seq<Word>, t: Seq<char>) -> u32 {
    ws[choose|j: int| 0 <= j < ws.len() && ws[j].word@ == t].word_id
}

/// Some dictionary row carries exactly this id.
pub open spec fn has_word_id(ws: Seq<Word>, id: u32) -> bool {
    exists|j: int| 0 <= j < ws.len() && ws[j].word_id == id
}

/// The text of the dictionary row with this id (meaningful only when
/// `has_word_id` holds and ids are distinct).
pub open spec fn word_text_of(ws: Seq<Word>, id: u32) -> Seq<char> {
    ws[choose|j: int| 0 <= j < ws.len() && ws[j].word_id == id].word@
}

/// The text of the row with this id, or the empty text for an unknown id.
pub open spec fn word_text_or_empty(ws: Seq<Word>, id: u32) -> Seq<char> {
    if has_word_id(ws, id) {
        word_text_of(ws, id)
    } else {
        Seq::<char>::empty()
    }
}

/// Every dictionary row has a distinct id and a distinct text.
pub open spec fn words_unique(ws: Seq<Word>) -> bool {
    forall|i: int, j: int|
        0 <= i < j < ws.len() ==> ws[i].word_id != ws[j].word_id && ws[i].word@ != ws[j].word@
}

/// The views of a sequence of strings.
pub open spec fn texts_of(ss: Seq<String>) -> Seq<Seq<char>> {
    Seq::new(ss.len(), |i: int| ss[i]@)
}

/// Some element of `input` is exactly this text.
pub open spec fn contains_text(input: Seq<Seq<char>>, t: Seq<char>) -> bool {
    exists|i: int| 0 <= i < input.len() && input[i] == t
}

/// How many distinct texts of `input` are absent from the dictionary:
/// each first occurrence of a text that no row carries counts once.
pub open spec fn missing_count(ws: Seq<Word>, input: Seq<Seq<char>>) -> nat
    decreases input.len(),
{
    if input.len() == 0 {
        0
    } else {
        missing_count(ws, input.drop_last()) + (if !has_word_text(ws, input.last())
            && !contains_text(input.drop_last(), input.last()) {
            1nat
        } else {
            0
        })
    }
}

/// The missing count of a longer prefix is no smaller; if the element at
/// `i` is a first occurrence of an absent text, it is strictly larger.
pub proof fn lemma_missing_count_mono(ws: Seq<Word>, input: Seq<Seq<char>>, i: int, m: int)
    requires
        0 <= i < m <= input.len(),
        !has_word_text(ws, input[i]),
        !contains_text(input.take(i), input[i]),
    ensures
        missing_count(ws, input.take(m)) >= missing_count(ws, input.take(i)) + 1,
    decreases m - i,
{
    if m == i + 1 {
        assert(input.take(m).drop_last() =~= input.take(i));
        assert(input.take(m).last() == input[i]);
    } else {
        lemma_missing_count_mono(ws, input, i, m - 1);
        assert(input.take(m).drop_last() =~= input.take(m - 1));
    }
}

/// With distinct texts, a row that carries a text is the row that
/// `word_id_of` speaks about.
pub proof fn lemma_word_id_at(ws: Seq<Word>, j: int)
    requires
        words_unique(ws),
        0 <= j < ws.len(),
    ensures
        has_word_text(ws, ws[j].word@),
        word_id_of(ws, ws[j].word@) == ws[j].word_id,
        has_word_id(ws, ws[j].word_id),
        word_text_of(ws, ws[j].word_id) == ws[j].word@,
{
    assert(has_word_text(ws, ws[j].word@));
    let k = choose|k: int| 0 <= k < ws.len() && ws[k].word@ == ws[j].word@;
    assert(k == j);
    assert(has_word_id(ws, ws[j].word_id));
    let i = choose|i: int| 0 <= i < ws.len() && ws[i].word_id == ws[j].word_id;
    assert(i == j);
}

/// Appending a fresh row moves no existing text to another id.
pub proof fn lemma_word_id_push(ws: Seq<Word>, e: Word, t: Seq<char>)
    requires
        words_unique(ws),
        words_unique(ws.push(e)),
        has_word_text(ws, t),
    ensures
        has_word_text(ws.push(e), t),
        word_id_of(ws.push(e), t) == word_id_of(ws, t),
{
    let p = ws.push(e);
    let c0 = choose|j: int| 0 <= j < ws.len() && ws[j].word@ == t;
    lemma_word_id_at(ws, c0);
    assert(p[c0] == ws[c0]);
    assert(has_word_text(p, t));
    lemma_word_id_at(p, c0);
}

// ---------------------------------------------------------------------------
// Bookkeeping tables
// ---------------------------------------------------------------------------

/// Some server row carries this server id.
pub open spec fn has_server_row(ss: Seq<Server>, server_id: u64) -> bool {
    exists|j: int| 0 <= j < ss.len() && ss[j].server_id == server_id
}

/// Some user row carries this user id.
pub open spec fn has_user_row(us: Seq<Users>, user_id: u64) -> bool {
    exists|j: int| 0 <= j < us.len() && us[j].user_id == user_id
}

/// Some member row carries this member id.
pub open spec fn has_member_row(ms: Seq<Member>, member_id: u32) -> bool {
    exists|j: int| 0 <= j < ms.len() && ms[j].member_id == member_id
}

/// Some member row carries this `(server, user)` pair.
pub open spec fn has_member_pair(ms: Seq<Member>, server_id: u64, user_id: u64) -> bool {
    exists|j: int|
        0 <= j < ms.len() && ms[j].server_id == server_id && ms[j].user_id == user_id
}

/// The member id of the row carrying this `(server, user)` pair (meaningful
/// only when `has_member_pair` holds and pairs are distinct).
pub open spec fn member_pair_id(ms: Seq<Member>, server_id: u64, user_id: u64) -> u32 {
    ms[choose|j: int|
        0 <= j < ms.len() && ms[j].server_id == server_id && ms[j].user_id == user_id].member_id
}

/// Some tracked-members row carries this member id.
pub open spec fn tracked_member_has(tms: Seq<TrackedMember>, member_id: u32) -> bool {
    exists|j: int| 0 <= j < tms.len() && tms[j].member_id == member_id
}

/// Some tracked-channels row carries this channel id.
pub open spec fn tracked_channel_has(tcs: Seq<TrackedChannel>, channel_id: u64) -> bool {
    exists|j: int| 0 <= j < tcs.len() && tcs[j].channel_id == channel_id
}

/// Server ids are distinct.
pub open spec fn servers_unique(ss: Seq<Server>) -> bool {
    forall|i: int, j: int| 0 <= i < j < ss.len() ==> ss[i].server_id != ss[j].server_id
}

/// User ids are distinct.
pub open spec fn users_unique(us: Seq<Users>) -> bool {
    forall|i: int, j: int| 0 <= i < j < us.len() ==> us[i].user_id != us[j].user_id
}

/// Channel ids are distinct.
pub open spec fn channels_unique(cs: Seq<Channel>) -> bool {
    forall|i: int, j: int| 0 <= i < j < cs.len() ==> cs[i].channel_id != cs[j].channel_id
}

/// Member ids and `(server, user)` pairs are distinct.
pub open spec fn members_unique(ms: Seq<Member>) -> bool {
    forall|i: int, j: int|
        0 <= i < j < ms.len() ==> ms[i].member_id != ms[j].member_id && !(ms[i].server_id
            == ms[j].server_id && ms[i].user_id == ms[j].user_id)
}

/// Every member id lies in `[1, bound)`.
pub open spec fn member_ids_below(ms: Seq<Member>, bound: u32) -> bool {
    forall|i: int| 0 <= i < ms.len() ==> 1 <= #[trigger] ms[i].member_id < bound
}

/// Tracked member ids are distinct.
pub open spec fn tracked_members_unique(tms: Seq<TrackedMember>) -> bool {
    forall|i: int, j: int| 0 <= i < j < tms.len() ==> tms[i].member_id != tms[j].member_id
}

/// Every tracked member id names a member row.
pub open spec fn tracked_members_reference(tms: Seq<TrackedMember>, ms: Seq<Member>) -> bool {
    forall|i: int| 0 <= i < tms.len() ==> has_member_row(ms, #[trigger] tms[i].member_id)
}

/// Tracked channel ids are distinct.
pub open spec fn tracked_channels_unique(tcs: Seq<TrackedChannel>) -> bool {
    forall|i: int, j: int| 0 <= i < j < tcs.len() ==> tcs[i].channel_id != tcs[j].channel_id
}

/// Every tracked channel id names a channel row.
pub open spec fn tracked_channels_reference(tcs: Seq<TrackedChannel>, cs: Seq<Channel>) -> bool {
    forall|i: int| 0 <= i < tcs.len() ==> has_channel_row(cs, #[trigger] tcs[i].channel_id)
}

/// Every channel row names a server row.
pub open spec fn channels_reference(cs: Seq<Channel>, ss: Seq<Server>) -> bool {
    forall|i: int| 0 <= i < cs.len() ==> has_server_row(ss, #[trigger] cs[i].server_id)
}

/// Every member row names a server row and a user row.
pub open spec fn members_reference(ms: Seq<Member>, ss: Seq<Server>, us: Seq<Users>) -> bool {
    forall|i: int|
        #![trigger ms[i].server_id]
        #![trigger ms[i].user_id]
        0 <= i < ms.len() ==> has_server_row(ss, ms[i].server_id) && has_user_row(
            us,
            ms[i].user_id,
        )
}

/// Every word id lies in `[1, bound)` and under the cap.
pub open spec fn word_ids_below(ws: Seq<Word>, bound: u32, cap: u32) -> bool {
    forall|i: int|
        0 <= i < ws.len() ==> 1 <= #[trigger] ws[i].word_id < bound && ws[i].word_id <= cap
}

/// Every edge weight is at least one.
pub open spec fn edge_freqs_positive(s: Seq<MemberWord>) -> bool {
    forall|i: int| 0 <= i < s.len() ==> #[trigger] s[i].frequency >= 1
}

/// Every edge names word rows at both endpoints.
pub open spec fn edges_reference(s: Seq<MemberWord>, ws: Seq<Word>) -> bool {
    forall|i: int|
        #![trigger s[i].word_id]
        #![trigger s[i].next_word_id]
        0 <= i < s.len() ==> has_word_id(ws, s[i].word_id) && has_word_id(ws, s[i].next_word_id)
}

/// The member row with this id (meaningful only when `has_member_row` holds
/// and member ids are distinct).
pub open spec fn member_row(ms: Seq<Member>, member_id: u32) -> Member {
    ms[choose|j: int| 0 <= j < ms.len() && ms[j].member_id == member_id]
}

/// Some channel row carries this channel id.
pub open spec fn has_channel_row(cs: Seq<Channel>, channel_id: u64) -> bool {
    exists|j: int| 0 <= j < cs.len() && cs[j].channel_id == channel_id
}

/// The channel row with this id (meaningful only when `has_channel_row`
/// holds and channel ids are distinct).
pub open spec fn channel_row(cs: Seq<Channel>, channel_id: u64) -> Channel {
    cs[choose|j: int| 0 <= j < cs.len() && cs[j].channel_id == channel_id]
}

/// The ids of the server's member rows, in row order.
pub open spec fn members_of(ms: Seq<Member>, server_id: u64) -> Seq<u32>
    decreases ms.len(),
{
    if ms.len() == 0 {
        Seq::empty()
    } else {
        let rest = members_of(ms.drop_last(), server_id);
        if ms.last().server_id == server_id {
            rest.push(ms.last().member_id)
        } else {
            rest
        }
    }
}

/// The tracked member ids whose member row belongs to the server, in
/// tracked-table order.
pub open spec fn tracked_ids_of(tms: Seq<TrackedMember>, ms: Seq<Member>, server_id: u64) -> Seq<
    u32,
>
    decreases tms.len(),
{
    if tms.len() == 0 {
        Seq::empty()
    } else {
        let rest = tracked_ids_of(tms.drop_last(), ms, server_id);
        let id = tms.last().member_id;
        if has_member_row(ms, id) && member_row(ms, id).server_id == server_id {
            rest.push(id)
        } else {
            rest
        }
    }
}

/// The platform user ids of the server's tracked members, in tracked-table
/// order.
pub open spec fn tracked_users_of(tms: Seq<TrackedMember>, ms: Seq<Member>, server_id: u64) -> Seq<
    u64,
>
    decreases tms.len(),
{
    if tms.len() == 0 {
        Seq::empty()
    } else {
        let rest = tracked_users_of(tms.drop_last(), ms, server_id);
        let id = tms.last().member_id;
        if has_member_row(ms, id) && member_row(ms, id).server_id == server_id {
            rest.push(member_row(ms, id).user_id)
        } else {
            rest
        }
    }
}

/// The tracked channel ids whose channel row belongs to the server, in
/// tracked-table order.
pub open spec fn tracked_channel_ids_of(
    tcs: Seq<TrackedChannel>,
    cs: Seq<Channel>,
    server_id: u64,
) -> Seq<u64>
    decreases tcs.len(),
{
    if tcs.len() == 0 {
        Seq::empty()
    } else {
        let rest = tracked_channel_ids_of(tcs.drop_last(), cs, server_id);
        let id = tcs.last().channel_id;
        if has_channel_row(cs, id) && channel_row(cs, id).server_id == server_id {
            rest.push(id)
        } else {
            rest
        }
    }
}

// ---------------------------------------------------------------------------
// Edge list
// ---------------------------------------------------------------------------

/// This row is the edge `(m, from, to)`.
pub open spec fn is_triple(e: MemberWord, m: u32, from: u32, to: u32) -> bool {
    e.member_id == m && e.word_id == from && e.next_word_id == to
}

/// Some row is the edge `(m, from, to)`.
pub open spec fn has_edge(s: Seq<MemberWord>, m: u32, from: u32, to: u32) -> bool {
    exists|j: int| 0 <= j < s.len() && is_triple(s[j], m, from, to)
}

/// The index of the edge `(m, from, to)` (meaningful only when `has_edge`
/// holds and triples are distinct).
pub open spec fn edge_index(s: Seq<MemberWord>, m: u32, from: u32, to: u32) -> int {
    choose|j: int| 0 <= j < s.len() && is_triple(s[j], m, from, to)
}

/// The frequency recorded for the edge `(m, from, to)`.
pub open spec fn edge_freq(s: Seq<MemberWord>, m: u32, from: u32, to: u32) -> u64 {
    s[edge_index(s, m, from, to)].frequency
}

/// At most one row per `(member, word, next word)` triple.
pub open spec fn edges_unique(s: Seq<MemberWord>) -> bool {
    forall|i: int, j: int|
        0 <= i < j < s.len() ==> !(s[i].member_id == s[j].member_id && s[i].word_id
            == s[j].word_id && s[i].next_word_id == s[j].next_word_id)
}

/// With distinct triples, a row is the row that `edge_index` speaks about.
pub proof fn lemma_edge_at(s: Seq<MemberWord>, j: int)
    requires
        edges_unique(s),
        0 <= j < s.len(),
    ensures
        has_edge(s, s[j].member_id, s[j].word_id, s[j].next_word_id),
        edge_index(s, s[j].member_id, s[j].word_id, s[j].next_word_id) == j,
        edge_freq(s, s[j].member_id, s[j].word_id, s[j].next_word_id) == s[j].frequency,
{
    let m = s[j].member_id;
    let f = s[j].word_id;
    let t = s[j].next_word_id;
    assert(has_edge(s, m, f, t));
    let k = choose|k: int| 0 <= k < s.len() && is_triple(s[k], m, f, t);
    assert(k == j);
}

/// The total weight stored across all rows.
pub open spec fn total_freq(s: Seq<MemberWord>) -> nat
    decreases s.len(),
{
    if s.len() == 0 {
        0
    } else {
        total_freq(s.drop_last()) + (s.last().frequency as nat)
    }
}

/// The total outgoing weight of one member.
pub open spec fn sum_freq(s: Seq<MemberWord>, m: u32) -> nat
    decreases s.len(),
{
    if s.len() == 0 {
        0
    } else {
        sum_freq(s.drop_last(), m) + (if s.last().member_id == m {
            s.last().frequency as nat
        } else {
            0
        })
    }
}

/// The member's edges, in row order.
pub open spec fn edges_of(s: Seq<MemberWord>, m: u32) -> Seq<MemberWord>
    decreases s.len(),
{
    if s.len() == 0 {
        Seq::empty()
    } else {
        let rest = edges_of(s.drop_last(), m);
        if s.last().member_id == m {
            rest.push(s.last())
        } else {
            rest
        }
    }
}

/// The edge `(m, from, _)` qualifies at this threshold: its weight exceeds
/// the threshold.
pub open spec fn qualifies(e: MemberWord, m: u32, from: u32, threshold: u64) -> bool {
    e.member_id == m && e.word_id == from && e.frequency > threshold
}

/// The successors reachable from `from` past the threshold, in row order.
pub open spec fn succs(s: Seq<MemberWord>, m: u32, from: u32, threshold: u64) -> Seq<u32>
    decreases s.len(),
{
    if s.len() == 0 {
        Seq::empty()
    } else {
        let rest = succs(s.drop_last(), m, from, threshold);
        if qualifies(s.last(), m, from, threshold) {
            rest.push(s.last().next_word_id)
        } else {
            rest
        }
    }
}

pub proof fn lemma_freq_le_total(s: Seq<MemberWord>, j: int)
    requires
        0 <= j < s.len(),
    ensures
        s[j].frequency <= total_freq(s),
    decreases s.len(),
{
    if j == s.len() - 1 {
    } else {
        lemma_freq_le_total(s.drop_last(), j);
    }
}

/// A member row's weight never exceeds the member's total.
pub proof fn lemma_member_freq_le_sum(s: Seq<MemberWord>, m: u32, j: int)
    requires
        0 <= j < s.len(),
        s[j].member_id == m,
    ensures
        s[j].frequency <= sum_freq(s, m),
    decreases s.len(),
{
    if j == s.len() - 1 {
    } else {
        lemma_member_freq_le_sum(s.drop_last(), m, j);
    }
}

pub proof fn lemma_sum_le_total(s: Seq<MemberWord>, m: u32)
    ensures
        sum_freq(s, m) <= total_freq(s),
    decreases s.len(),
{
    if s.len() > 0 {
        lemma_sum_le_total(s.drop_last(), m);
    }
}

pub proof fn lemma_total_freq_update(s: Seq<MemberWord>, j: int, e: MemberWord)
    requires
        0 <= j < s.len(),
    ensures
        total_freq(s.update(j, e)) == total_freq(s) - s[j].frequency + e.frequency,
    decreases s.len(),
{
    let t = s.update(j, e);
    assert(t.len() == s.len());
    if j == s.len() - 1 {
        assert(t.drop_last() =~= s.drop_last());
    } else {
        assert(t.drop_last() =~= s.drop_last().update(j, e));
        lemma_total_freq_update(s.drop_last(), j, e);
        assert(t.last() == s.last());
    }
}

/// Every listed successor is the target of some qualifying row.
pub proof fn lemma_succs_elem(s: Seq<MemberWord>, m: u32, from: u32, threshold: u64, k: int)
    requires
        0 <= k < succs(s, m, from, threshold).len(),
    ensures
        exists|j: int|
            0 <= j < s.len() && qualifies(s[j], m, from, threshold) && s[j].next_word_id
                == succs(s, m, from, threshold)[k],
    decreases s.len(),
{
    let q = succs(s, m, from, threshold);
    let qr = succs(s.drop_last(), m, from, threshold);
    if qualifies(s.last(), m, from, threshold) && k == q.len() - 1 {
        assert(s[s.len() - 1] == s.last());
    } else {
        lemma_succs_elem(s.drop_last(), m, from, threshold, k);
        let j = choose|j: int|
            0 <= j < s.drop_last().len() && qualifies(s.drop_last()[j], m, from, threshold)
                && s.drop_last()[j].next_word_id == qr[k];
        assert(s.drop_last()[j] == s[j]);
        assert(q[k] == qr[k]);
    }
}

/// Every listed edge of a member is one of the member's rows.
pub proof fn lemma_edges_of_elem(s: Seq<MemberWord>, m: u32, k: int)
    requires
        0 <= k < edges_of(s, m).len(),
    ensures
        exists|j: int| 0 <= j < s.len() && s[j] == edges_of(s, m)[k] && s[j].member_id == m,
    decreases s.len(),
{
    let es = edges_of(s, m);
    let er = edges_of(s.drop_last(), m);
    if s.last().member_id == m && k == es.len() - 1 {
        assert(s[s.len() - 1] == s.last());
    } else {
        lemma_edges_of_elem(s.drop_last(), m, k);
        let j = choose|j: int|
            0 <= j < s.drop_last().len() && s.drop_last()[j] == er[k] && s.drop_last()[j].member_id
                == m;
        assert(s.drop_last()[j] == s[j]);
        assert(es[k] == er[k]);
    }
}

/// A member has no more edges than there are rows.
pub proof fn lemma_edges_of_len(s: Seq<MemberWord>, m: u32)
    ensures
        edges_of(s, m).len() <= s.len(),
    decreases s.len(),
{
    if s.len() > 0 {
        lemma_edges_of_len(s.drop_last(), m);
    }
}

/// A member's edges over a row prefix are a prefix of the member's edges.
pub proof fn lemma_edges_of_take(s: Seq<MemberWord>, m: u32, j: int)
    requires
        0 <= j <= s.len(),
    ensures
        edges_of(s.take(j), m).len() <= edges_of(s, m).len(),
        edges_of(s.take(j), m) == edges_of(s, m).take(edges_of(s.take(j), m).len() as int),
    decreases s.len() - j,
{
    let es = edges_of(s, m);
    if j == s.len() {
        assert(s.take(j) =~= s);
        assert(es.take(es.len() as int) =~= es);
    } else {
        lemma_edges_of_take(s, m, j + 1);
        assert(s.take(j + 1).drop_last() =~= s.take(j));
        assert(s.take(j + 1).last() == s[j]);
        let lo = edges_of(s.take(j), m).len() as int;
        let hi = edges_of(s.take(j + 1), m).len() as int;
        if s[j].member_id == m {
            assert(edges_of(s.take(j + 1), m) == edges_of(s.take(j), m).push(s[j]));
            assert(hi == lo + 1);
            assert(es.take(hi).drop_last() =~= es.take(lo));
            assert(edges_of(s.take(j), m) == es.take(hi).drop_last());
        } else {
            assert(edges_of(s.take(j + 1), m) == edges_of(s.take(j), m));
        }
    }
}

/// The successors drawn from the full row list are the successors drawn
/// from the member's own edges.
pub proof fn lemma_succs_via_edges(s: Seq<MemberWord>, m: u32, from: u32, threshold: u64)
    ensures
        succs(s, m, from, threshold) == succs(edges_of(s, m), m, from, threshold),
    decreases s.len(),
{
    if s.len() > 0 {
        lemma_succs_via_edges(s.drop_last(), m, from, threshold);
        if s.last().member_id == m {
            let es = edges_of(s.drop_last(), m).push(s.last());
            assert(es.drop_last() =~= edges_of(s.drop_last(), m));
            assert(es.last() == s.last());
            assert(edges_of(s, m) == es);
        }
    }
}

/// One upsert of the edge `(m, from, to)`: a present edge's weight grows by
/// one, an absent edge appears with weight one.
pub open spec fn upsert_edge(s: Seq<MemberWord>, m: u32, from: u32, to: u32) -> Seq<MemberWord> {
    if has_edge(s, m, from, to) {
        s.update(
            edge_index(s, m, from, to),
            MemberWord {
                word_id: from,
                member_id: m,
                next_word_id: to,
                frequency: ((edge_freq(s, m, from, to) + 1) as u64),
            },
        )
    } else {
        s.push(MemberWord { word_id: from, member_id: m, next_word_id: to, frequency: 1 })
    }
}

/// The dictionary ids of a sequence of words, in input order.
pub open spec fn ids_of(ws: Seq<Word>, ss: Seq<String>) -> Seq<u32> {
    Seq::new(ss.len(), |i: int| word_id_of(ws, ss[i]@))
}

/// The dictionary ids of a sequence of word texts, in input order.
pub open spec fn ids_of_texts(ws: Seq<Word>, ts: Seq<Seq<char>>) -> Seq<u32> {
    Seq::new(ts.len(), |i: int| word_id_of(ws, ts[i]))
}

/// Law: ingestion is additive. One upsert of an observed pair raises
/// exactly that edge's frequency by exactly one — creating it at one if it
/// was absent — and leaves every other edge of every member untouched.
pub proof fn lemma_upsert_edge_freqs(s: Seq<MemberWord>, m: u32, from: u32, to: u32)
    requires
        edges_unique(s),
        has_edge(s, m, from, to) ==> edge_freq(s, m, from, to) < u64::MAX,
    ensures
        edges_unique(upsert_edge(s, m, from, to)),
        has_edge(upsert_edge(s, m, from, to), m, from, to),
        edge_freq(upsert_edge(s, m, from, to), m, from, to) == (if has_edge(s, m, from, to) {
            (edge_freq(s, m, from, to) + 1) as u64
        } else {
            1u64
        }),
        forall|m2: u32, f2: u32, t2: u32|
            !(m2 == m && f2 == from && t2 == to) ==> ((has_edge(
                upsert_edge(s, m, from, to),
                m2,
                f2,
                t2,
            ) <==> has_edge(s, m2, f2, t2)) && (has_edge(s, m2, f2, t2) ==> edge_freq(
                upsert_edge(s, m, from, to),
                m2,
                f2,
                t2,
            ) == edge_freq(s, m2, f2, t2))),
{
    let u = upsert_edge(s, m, from, to);
    if has_edge(s, m, from, to) {
        let j = edge_index(s, m, from, to);
        let e = MemberWord {
            word_id: from,
            member_id: m,
            next_word_id: to,
            frequency: ((edge_freq(s, m, from, to) + 1) as u64),
        };
        assert(u == s.update(j, e));
        assert(forall|k: int| 0 <= k < s.len() && k != j ==> u[k] == s[k]);
        assert(u[j] == e);
        assert forall|a: int, b: int|
            0 <= a < b < u.len() implies !(u[a].member_id == u[b].member_id && u[a].word_id
            == u[b].word_id && u[a].next_word_id == u[b].next_word_id) by {
            if a != j {
                assert(u[a] == s[a]);
            }
            if b != j {
                assert(u[b] == s[b]);
            }
        }
        lemma_edge_at(u, j);
        assert forall|m2: u32, f2: u32, t2: u32|
            !(m2 == m && f2 == from && t2 == to) implies ((has_edge(u, m2, f2, t2) <==> has_edge(
            s,
            m2,
            f2,
            t2,
        )) && (has_edge(s, m2, f2, t2) ==> edge_freq(u, m2, f2, t2) == edge_freq(
            s,
            m2,
            f2,
            t2,
        ))) by {
            if has_edge(s, m2, f2, t2) {
                let w = choose|w: int| 0 <= w < s.len() && is_triple(s[w], m2, f2, t2);
                assert(w != j);
                assert(u[w] == s[w]);
                lemma_edge_at(u, w);
                lemma_edge_at(s, w);
            }
            if has_edge(u, m2, f2, t2) {
                let w = choose|w: int| 0 <= w < u.len() && is_triple(u[w], m2, f2, t2);
                assert(w != j);
                assert(u[w] == s[w]);
            }
        }
    } else {
        let e = MemberWord { word_id: from, member_id: m, next_word_id: to, frequency: 1 };
        assert(u == s.push(e));
        assert(forall|k: int| 0 <= k < s.len() ==> u[k] == s[k]);
        let pn = s.len() as int;
        assert(u[pn] == e);
        assert forall|a: int, b: int|
            0 <= a < b < u.len() implies !(u[a].member_id == u[b].member_id && u[a].word_id
            == u[b].word_id && u[a].next_word_id == u[b].next_word_id) by {
            assert(u[a] == s[a]);
            if b < pn {
                assert(u[b] == s[b]);
            } else {
                if is_triple(s[a], m, from, to) {
                    assert(has_edge(s, m, from, to));
                }
            }
        }
        lemma_edge_at(u, pn);
        assert forall|m2: u32, f2: u32, t2: u32|
            !(m2 == m && f2 == from && t2 == to) implies ((has_edge(u, m2, f2, t2) <==> has_edge(
            s,
            m2,
            f2,
            t2,
        )) && (has_edge(s, m2, f2, t2) ==> edge_freq(u, m2, f2, t2) == edge_freq(
            s,
            m2,
            f2,
            t2,
        ))) by {
            if has_edge(s, m2, f2, t2) {
                let w = choose|w: int| 0 <= w < s.len() && is_triple(s[w], m2, f2, t2);
                assert(u[w] == s[w]);
                lemma_edge_at(u, w);
                lemma_edge_at(s, w);
            }
            if has_edge(u, m2, f2, t2) {
                let w = choose|w: int| 0 <= w < u.len() && is_triple(u[w], m2, f2, t2);
                assert(w != pn);
                assert(u[w] == s[w]);
            }
        }
    }
}

/// The adjacent pairs of a token sequence.
pub open spec fn pair_seq(ids: Seq<u32>) -> Seq<(u32, u32)> {
    if ids.len() < 2 {
        Seq::empty()
    } else {
        Seq::new((ids.len() - 1) as nat, |i: int| (ids[i], ids[i + 1]))
    }
}

/// Upserting every pair in order.
pub open spec fn ingest_pairs(s: Seq<MemberWord>, m: u32, pairs: Seq<(u32, u32)>) -> Seq<
    MemberWord,
>
    decreases pairs.len(),
{
    if pairs.len() == 0 {
        s
    } else {
        ingest_pairs(upsert_edge(s, m, pairs[0].0, pairs[0].1), m, pairs.drop_first())
    }
}

/// One upsert adds exactly one to the total stored weight.
pub proof fn lemma_upsert_total(s: Seq<MemberWord>, m: u32, from: u32, to: u32)
    requires
        total_freq(s) < u64::MAX,
    ensures
        total_freq(upsert_edge(s, m, from, to)) == total_freq(s) + 1,
{
    if has_edge(s, m, from, to) {
        let j = edge_index(s, m, from, to);
        lemma_freq_le_total(s, j);
        lemma_total_freq_update(
            s,
            j,
            MemberWord {
                word_id: from,
                member_id: m,
                next_word_id: to,
                frequency: ((edge_freq(s, m, from, to) + 1) as u64),
            },
        );
    } else {
        let p = s.push(MemberWord { word_id: from, member_id: m, next_word_id: to, frequency: 1 });
        assert(p.drop_last() =~= s);
    }
}

/// The total weight over a prefix never exceeds the whole.
pub proof fn lemma_total_take_le(s: Seq<MemberWord>, j: int)
    requires
        0 <= j <= s.len(),
    ensures
        total_freq(s.take(j)) <= total_freq(s),
    decreases s.len() - j,
{
    if j == s.len() {
        assert(s.take(j) =~= s);
    } else {
        lemma_total_take_le(s, j + 1);
        assert(s.take(j + 1).drop_last() =~= s.take(j));
    }
}

/// A member's weight over a prefix never exceeds the whole.
pub proof fn lemma_sum_take_le(s: Seq<MemberWord>, m: u32, j: int)
    requires
        0 <= j <= s.len(),
    ensures
        sum_freq(s.take(j), m) <= sum_freq(s, m),
    decreases s.len() - j,
{
    if j == s.len() {
        assert(s.take(j) =~= s);
    } else {
        lemma_sum_take_le(s, m, j + 1);
        assert(s.take(j + 1).drop_last() =~= s.take(j));
    }
}

// ---------------------------------------------------------------------------
// The random walk
// ---------------------------------------------------------------------------

/// Extends a seeded token sequence step by step. Each step spends one
/// `(threshold, pick)` choice: among the successors of the last token whose
/// weight exceeds the threshold, the pick (reduced modulo their number)
/// selects the next token. A step with no qualifying successor stops the
/// walk with the tokens collected so far.
pub open spec fn walk_from(
    s: Seq<MemberWord>,
    m: u32,
    acc: Seq<u32>,
    choices: Seq<(u64, u64)>,
) -> Result<Seq<u32>, Seq<u32>>
    decreases choices.len(),
{
    if choices.len() == 0 {
        Ok(acc)
    } else {
        let threshold = choices[0].0;
        let pick = choices[0].1;
        let q = succs(s, m, acc.last(), threshold);
        if q.len() == 0 {
            Err(acc)
        } else {
            walk_from(s, m, acc.push(q[pick as int % q.len() as int]), choices.drop_first())
        }
    }
}

/// The whole walk: the seed choice (reduced modulo the member's edge count)
/// selects a first edge, whose two endpoints seed the token sequence; the
/// remaining choices extend it. A member without edges fails at once with
/// no tokens collected.
pub open spec fn walk(
    s: Seq<MemberWord>,
    m: u32,
    seed: u64,
    choices: Seq<(u64, u64)>,
) -> Result<Seq<u32>, Seq<u32>> {
    let es = edges_of(s, m);
    if es.len() == 0 {
        Err(Seq::empty())
    } else {
        let e = es[seed as int % es.len() as int];
        walk_from(s, m, seq![e.word_id, e.next_word_id], choices)
    }
}

/// The sentence for a token sequence: each token's dictionary text, joined
/// with single spaces in token order.
pub open spec fn render(ws: Seq<Word>, ids: Seq<u32>) -> Seq<char>
    decreases ids.len(),
{
    if ids.len() == 0 {
        Seq::empty()
    } else if ids.len() == 1 {
        word_text_or_empty(ws, ids[0])
    } else {
        render(ws, ids.drop_last()) + seq![' '] + word_text_or_empty(ws, ids.last())
    }
}

} // verus!
