//! The transition store: a weighted directed multigraph keyed by member,
//! together with the server/user/member/channel bookkeeping tables.
//!
//! The store holds its tables in memory; persisting them behind a relational
//! engine is the caller's concern and stays outside this library.

use vstd::prelude::*;

use crate::entities::{Channel, Member, MemberWord, Server, TrackedChannel, TrackedMember, Users, Word};
use crate::errors::{AddMemberWordsError, InsertResult, RemoveResult, StorageError};
use crate::model;
use crate::textprocessing::vec_word_split;

verus! {

/// The largest word id the store assigns; keeps ids inside the positive
/// range of a 32-bit signed column.
pub const MAX_WORD_ID: u32 = 0x7fff_ffff;

/// The interface to the transition store and the tracking tables.
pub struct DbInterface {
    pub servers: Vec<Server>,
    pub users: Vec<Users>,
    pub members: Vec<Member>,
    pub tracked_members: Vec<TrackedMember>,
    pub channels: Vec<Channel>,
    pub tracked_channels: Vec<TrackedChannel>,
    pub words: Vec<Word>,
    pub member_words: Vec<MemberWord>,
    pub next_member_id: u32,
    pub next_word_id: u32,
}

/// Represents the possible states for the store when provisioning: whether
/// its tables already held data.
#[derive(Clone, Copy, Debug, PartialEq, Eq, Structural)]
pub enum DbSchemaInitialState {
    AlreadyPresent,
    NotPresent,
}

impl DbInterface {
    /// Some member row carries this `(server, user)` pair.
    pub open spec fn has_member(&self, server_id: u64, user_id: u64) -> bool {
        model::has_member_pair(self.members@, server_id, user_id)
    }

    /// The member id recorded for this `(server, user)` pair.
    pub open spec fn member_id_of(&self, server_id: u64, user_id: u64) -> u32 {
        model::member_pair_id(self.members@, server_id, user_id)
    }

    /// Some member row carries this member id.
    pub open spec fn has_member_id(&self, member_id: u32) -> bool {
        model::has_member_row(self.members@, member_id)
    }

    /// The member row with this id.
    pub open spec fn member_by_id(&self, member_id: u32) -> Member {
        model::member_row(self.members@, member_id)
    }

    /// This member id stands in the tracked-members table.
    pub open spec fn is_tracked_member_id(&self, member_id: u32) -> bool {
        model::tracked_member_has(self.tracked_members@, member_id)
    }

    /// Some server row carries this id.
    pub open spec fn has_server(&self, server_id: u64) -> bool {
        model::has_server_row(self.servers@, server_id)
    }

    /// Some user row carries this id.
    pub open spec fn has_user(&self, user_id: u64) -> bool {
        model::has_user_row(self.users@, user_id)
    }

    /// Some channel row carries this id.
    pub open spec fn has_channel(&self, channel_id: u64) -> bool {
        model::has_channel_row(self.channels@, channel_id)
    }

    /// The channel row with this id.
    pub open spec fn channel_by_id(&self, channel_id: u64) -> Channel {
        model::channel_row(self.channels@, channel_id)
    }

    /// This channel id stands in the tracked-channels table.
    pub open spec fn is_tracked_channel_id(&self, channel_id: u64) -> bool {
        model::tracked_channel_has(self.tracked_channels@, channel_id)
    }

    /// The channel is tracked for this server: it stands in the
    /// tracked-channels table and its channel row belongs to the server.
    pub open spec fn tracked_channel_in(&self, server_id: u64, channel_id: u64) -> bool {
        self.is_tracked_channel_id(channel_id) && self.has_channel(channel_id) && self.channel_by_id(
            channel_id,
        ).server_id == server_id
    }

    /// Well-formedness of the store: keys are unique, references resolve,
    /// id counters stand above every assigned id, every edge weight is at
    /// least one, and the total stored weight fits the counter type.
    pub open spec fn wf(&self) -> bool {
        &&& model::servers_unique(self.servers@)
        &&& model::users_unique(self.users@)
        &&& model::channels_unique(self.channels@)
        &&& model::members_unique(self.members@)
        &&& model::member_ids_below(self.members@, self.next_member_id)
        &&& self.next_member_id >= 1
        &&& model::tracked_members_unique(self.tracked_members@)
        &&& model::tracked_members_reference(self.tracked_members@, self.members@)
        &&& model::tracked_channels_unique(self.tracked_channels@)
        &&& model::tracked_channels_reference(self.tracked_channels@, self.channels@)
        &&& model::channels_reference(self.channels@, self.servers@)
        &&& model::members_reference(self.members@, self.servers@, self.users@)
        &&& model::words_unique(self.words@)
        &&& model::word_ids_below(self.words@, self.next_word_id, MAX_WORD_ID)
        &&& 1 <= self.next_word_id <= MAX_WORD_ID + 1
        &&& model::edges_unique(self.member_words@)
        &&& model::edge_freqs_positive(self.member_words@)
        &&& model::edges_reference(self.member_words@, self.words@)
        &&& model::total_freq(self.member_words@) <= u64::MAX
    }

    /// The store is empty.
    pub open spec fn is_empty_store(&self) -> bool {
        &&& self.servers@.len() == 0
        &&& self.users@.len() == 0
        &&& self.members@.len() == 0
        &&& self.tracked_members@.len() == 0
        &&& self.channels@.len() == 0
        &&& self.tracked_channels@.len() == 0
        &&& self.words@.len() == 0
        &&& self.member_words@.len() == 0
        &&& self.next_member_id == 1
        &&& self.next_word_id == 1
    }

    /// Creates an empty store.
    pub fn new() -> (r: DbInterface)
        ensures
            r.wf(),
            r.is_empty_store(),
    {
        DbInterface {
            servers: Vec::new(),
            users: Vec::new(),
            members: Vec::new(),
            tracked_members: Vec::new(),
            channels: Vec::new(),
            tracked_channels: Vec::new(),
            words: Vec::new(),
            member_words: Vec::new(),
            next_member_id: 1,
            next_word_id: 1,
        }
    }

    /// Deletes all data from all tables and resets the id counters. For
    /// test and maintenance use only.
    pub fn reinit_all_data(&mut self) -> (r: bool)
        ensures
            final(self).wf(),
            final(self).is_empty_store(),
            r == true,
    {
        self.servers = Vec::new();
        self.users = Vec::new();
        self.members = Vec::new();
        self.tracked_members = Vec::new();
        self.channels = Vec::new();
        self.tracked_channels = Vec::new();
        self.words = Vec::new();
        self.member_words = Vec::new();
        self.next_member_id = 1;
        self.next_word_id = 1;
        true
    }

    /// Returns the member id recorded for the `(server, user)` pair, if the
    /// pair is a stored member.
    pub fn fetch_member(&self, server_id: u64, user_id: u64) -> (r: Option<u32>)
        requires
            self.wf(),
        ensures
            r is Some <==> self.has_member(server_id, user_id),
            r matches Some(id) ==> id == self.member_id_of(server_id, user_id),
    {
        let n = self.members.len();
        let mut j: usize = 0;
        while j < n
            invariant
                self.wf(),
                n == self.members@.len(),
                j <= n,
                forall|k: int|
                    0 <= k < j ==> !(self.members@[k].server_id == server_id
                        && self.members@[k].user_id == user_id),
            decreases n - j,
        {
            if self.members[j].server_id == server_id && self.members[j].user_id == user_id {
                proof {
                    let c = choose|k: int|
                        0 <= k < self.members@.len() && self.members@[k].server_id == server_id
                            && self.members@[k].user_id == user_id;
                    assert(c == j);
                }
                return Some(self.members[j].member_id);
            }
            j = j + 1;
        }
        None
    }

    /// Returns the member id if the `(server, user)` pair is a stored and
    /// tracked member.
    pub fn fetch_tracked_member(&self, server_id: u64, user_id: u64) -> (r: Option<u32>)
        requires
            self.wf(),
        ensures
            r is Some <==> self.has_member(server_id, user_id) && self.is_tracked_member_id(
                self.member_id_of(server_id, user_id),
            ),
            r matches Some(id) ==> id == self.member_id_of(server_id, user_id),
    {
        match self.fetch_member(server_id, user_id) {
            Some(member_id) => {
                if self.tracked_member_present(member_id) {
                    Some(member_id)
                } else {
                    None
                }
            },
            None => None,
        }
    }

    /// Returns whether the tracked-members table holds this member id.
    fn tracked_member_present(&self, member_id: u32) -> (r: bool)
        ensures
            r == self.is_tracked_member_id(member_id),
    {
        let n = self.tracked_members.len();
        let mut j: usize = 0;
        while j < n
            invariant
                n == self.tracked_members@.len(),
                j <= n,
                forall|k: int| 0 <= k < j ==> self.tracked_members@[k].member_id != member_id,
            decreases n - j,
        {
            if self.tracked_members[j].member_id == member_id {
                return true;
            }
            j = j + 1;
        }
        false
    }

    /// Returns whether the servers table holds this server id.
    fn server_present(&self, server_id: u64) -> (r: bool)
        ensures
            r == self.has_server(server_id),
    {
        let n = self.servers.len();
        let mut j: usize = 0;
        while j < n
            invariant
                n == self.servers@.len(),
                j <= n,
                forall|k: int| 0 <= k < j ==> self.servers@[k].server_id != server_id,
            decreases n - j,
        {
            if self.servers[j].server_id == server_id {
                return true;
            }
            j = j + 1;
        }
        false
    }

    /// Returns whether the users table holds this user id.
    fn user_present(&self, user_id: u64) -> (r: bool)
        ensures
            r == self.has_user(user_id),
    {
        let n = self.users.len();
        let mut j: usize = 0;
        while j < n
            invariant
                n == self.users@.len(),
                j <= n,
                forall|k: int| 0 <= k < j ==> self.users@[k].user_id != user_id,
            decreases n - j,
        {
            if self.users[j].user_id == user_id {
                return true;
            }
            j = j + 1;
        }
        false
    }

    /// Returns the index of the channel row with this channel id.
    fn channel_index(&self, channel_id: u64) -> (r: Option<usize>)
        requires
            self.wf(),
        ensures
            r is Some <==> self.has_channel(channel_id),
            r matches Some(j) ==> j < self.channels@.len() && self.channels@[j as int]
                == self.channel_by_id(channel_id),
    {
        let n = self.channels.len();
        let mut j: usize = 0;
        while j < n
            invariant
                self.wf(),
                n == self.channels@.len(),
                j <= n,
                forall|k: int| 0 <= k < j ==> self.channels@[k].channel_id != channel_id,
            decreases n - j,
        {
            if self.channels[j].channel_id == channel_id {
                proof {
                    let c = choose|k: int|
                        0 <= k < self.channels@.len() && self.channels@[k].channel_id == channel_id;
                    assert(c == j);
                }
                return Some(j);
            }
            j = j + 1;
        }
        None
    }

    /// Returns whether the tracked-channels table holds this channel id.
    fn tracked_channel_present(&self, channel_id: u64) -> (r: bool)
        ensures
            r == self.is_tracked_channel_id(channel_id),
    {
        let n = self.tracked_channels.len();
        let mut j: usize = 0;
        while j < n
            invariant
                n == self.tracked_channels@.len(),
                j <= n,
                forall|k: int| 0 <= k < j ==> self.tracked_channels@[k].channel_id != channel_id,
            decreases n - j,
        {
            if self.tracked_channels[j].channel_id == channel_id {
                return true;
            }
            j = j + 1;
        }
        false
    }

    /// Returns the index of the member row with this member id.
    fn member_index_by_id(&self, member_id: u32) -> (r: Option<usize>)
        ensures
            r is Some <==> self.has_member_id(member_id),
            r matches Some(k) ==> k < self.members@.len() && self.members@[k as int].member_id
                == member_id,
    {
        let n = self.members.len();
        let mut j: usize = 0;
        while j < n
            invariant
                n == self.members@.len(),
                j <= n,
                forall|k: int| 0 <= k < j ==> self.members@[k].member_id != member_id,
            decreases n - j,
        {
            if self.members[j].member_id == member_id {
                return Some(j);
            }
            j = j + 1;
        }
        None
    }

    /// Returns the index of the tracked-members row with this member id.
    fn tracked_member_index(&self, member_id: u32) -> (r: Option<usize>)
        ensures
            r is Some <==> self.is_tracked_member_id(member_id),
            r matches Some(k) ==> k < self.tracked_members@.len() && self.tracked_members@[
                k as int].member_id == member_id,
    {
        let n = self.tracked_members.len();
        let mut j: usize = 0;
        while j < n
            invariant
                n == self.tracked_members@.len(),
                j <= n,
                forall|k: int| 0 <= k < j ==> self.tracked_members@[k].member_id != member_id,
            decreases n - j,
        {
            if self.tracked_members[j].member_id == member_id {
                return Some(j);
            }
            j = j + 1;
        }
        None
    }

    /// Returns the index of the tracked-channels row with this channel id.
    fn tracked_channel_index(&self, channel_id: u64) -> (r: Option<usize>)
        ensures
            r is Some <==> self.is_tracked_channel_id(channel_id),
            r matches Some(k) ==> k < self.tracked_channels@.len() && self.tracked_channels@[
                k as int].channel_id == channel_id,
    {
        let n = self.tracked_channels.len();
        let mut j: usize = 0;
        while j < n
            invariant
                n == self.tracked_channels@.len(),
                j <= n,
                forall|k: int| 0 <= k < j ==> self.tracked_channels@[k].channel_id != channel_id,
            decreases n - j,
        {
            if self.tracked_channels[j].channel_id == channel_id {
                return Some(j);
            }
            j = j + 1;
        }
        None
    }

    /// Inserts the server row if it is absent.
    fn ensure_server(&mut self, server_id: u64)
        requires
            old(self).wf(),
        ensures
            final(self).wf(),
            final(self).has_server(server_id),
            old(self).has_server(server_id) ==> final(self).servers@ == old(self).servers@,
            !old(self).has_server(server_id) ==> final(self).servers@ == old(self).servers@.push(
                Server { server_id },
            ),
            final(self).users@ == old(self).users@,
            final(self).members@ == old(self).members@,
            final(self).tracked_members@ == old(self).tracked_members@,
            final(self).channels@ == old(self).channels@,
            final(self).tracked_channels@ == old(self).tracked_channels@,
            final(self).words@ == old(self).words@,
            final(self).member_words@ == old(self).member_words@,
            final(self).next_member_id == old(self).next_member_id,
            final(self).next_word_id == old(self).next_word_id,
    {
        if !self.server_present(server_id) {
            let ghost pre = self.servers@;
            self.servers.push(Server { server_id });
            proof {
                let n = pre.len() as int;
                assert(forall|k: int| 0 <= k < n ==> self.servers@[k] == pre[k]);
                assert(self.servers@[n].server_id == server_id);
                assert forall|i: int|
                    0 <= i < self.channels@.len() implies model::has_server_row(
                    self.servers@,
                    #[trigger] self.channels@[i].server_id,
                ) by {
                    let w = choose|k: int|
                        0 <= k < pre.len() && pre[k].server_id == self.channels@[i].server_id;
                    assert(self.servers@[w].server_id == self.channels@[i].server_id);
                }
                assert forall|i: int|
                    0 <= i < self.members@.len() implies model::has_server_row(
                    self.servers@,
                    #[trigger] self.members@[i].server_id,
                ) && model::has_user_row(self.users@, self.members@[i].user_id) by {
                    let w = choose|k: int|
                        0 <= k < pre.len() && pre[k].server_id == self.members@[i].server_id;
                    assert(self.servers@[w].server_id == self.members@[i].server_id);
                }
            }
        }
    }

    /// Inserts the user row if it is absent.
    fn ensure_user(&mut self, user_id: u64)
        requires
            old(self).wf(),
        ensures
            final(self).wf(),
            final(self).has_user(user_id),
            old(self).has_user(user_id) ==> final(self).users@ == old(self).users@,
            !old(self).has_user(user_id) ==> final(self).users@ == old(self).users@.push(
                Users { user_id },
            ),
            final(self).servers@ == old(self).servers@,
            final(self).members@ == old(self).members@,
            final(self).tracked_members@ == old(self).tracked_members@,
            final(self).channels@ == old(self).channels@,
            final(self).tracked_channels@ == old(self).tracked_channels@,
            final(self).words@ == old(self).words@,
            final(self).member_words@ == old(self).member_words@,
            final(self).next_member_id == old(self).next_member_id,
            final(self).next_word_id == old(self).next_word_id,
    {
        if !self.user_present(user_id) {
            let ghost pre = self.users@;
            self.users.push(Users { user_id });
            proof {
                let n = pre.len() as int;
                assert(forall|k: int| 0 <= k < n ==> self.users@[k] == pre[k]);
                assert(self.users@[n].user_id == user_id);
                assert forall|i: int|
                    0 <= i < self.members@.len() implies model::has_server_row(
                    self.servers@,
                    #[trigger] self.members@[i].server_id,
                ) && model::has_user_row(self.users@, self.members@[i].user_id) by {
                    let w = choose|k: int|
                        0 <= k < pre.len() && pre[k].user_id == self.members@[i].user_id;
                    assert(self.users@[w].user_id == self.members@[i].user_id);
                }
            }
        }
    }

    /// Returns the ids of the server's stored members, in row order, or
    /// nothing when the server has none.
    pub fn fetch_members(&self, server_id: u64) -> (r: Option<Vec<u32>>)
        requires
            self.wf(),
        ensures
            r is Some <==> model::members_of(self.members@, server_id).len() > 0,
            r matches Some(v) ==> v@ == model::members_of(self.members@, server_id),
    {
        let n = self.members.len();
        let mut v: Vec<u32> = Vec::new();
        let mut j: usize = 0;
        while j < n
            invariant
                self.wf(),
                n == self.members@.len(),
                j <= n,
                v@ == model::members_of(self.members@.take(j as int), server_id),
            decreases n - j,
        {
            proof {
                assert(self.members@.take(j + 1).drop_last() =~= self.members@.take(j as int));
                assert(self.members@.take(j + 1).last() == self.members@[j as int]);
            }
            if self.members[j].server_id == server_id {
                v.push(self.members[j].member_id);
            }
            j = j + 1;
        }
        proof {
            assert(self.members@.take(n as int) =~= self.members@);
        }
        if v.len() == 0 {
            None
        } else {
            Some(v)
        }
    }

    /// Returns the member ids of the server's tracked members, in
    /// tracked-table order, or nothing when the server has none.
    pub fn fetch_tracked_members(&self, server_id: u64) -> (r: Option<Vec<u32>>)
        requires
            self.wf(),
        ensures
            r is Some <==> model::tracked_ids_of(
                self.tracked_members@,
                self.members@,
                server_id,
            ).len() > 0,
            r matches Some(v) ==> v@ == model::tracked_ids_of(
                self.tracked_members@,
                self.members@,
                server_id,
            ),
    {
        let n = self.tracked_members.len();
        let mut v: Vec<u32> = Vec::new();
        let mut j: usize = 0;
        while j < n
            invariant
                self.wf(),
                n == self.tracked_members@.len(),
                j <= n,
                v@ == model::tracked_ids_of(
                    self.tracked_members@.take(j as int),
                    self.members@,
                    server_id,
                ),
            decreases n - j,
        {
            proof {
                assert(self.tracked_members@.take(j + 1).drop_last() =~= self.tracked_members@.take(
                    j as int,
                ));
                assert(self.tracked_members@.take(j + 1).last() == self.tracked_members@[j as int]);
            }
            let id = self.tracked_members[j].member_id;
            match self.member_index_by_id(id) {
                Some(k) => {
                    proof {
                        let c = choose|c: int|
                            0 <= c < self.members@.len() && self.members@[c].member_id == id;
                        assert(c == k);
                        assert(model::member_row(self.members@, id) == self.members@[k as int]);
                    }
                    if self.members[k].server_id == server_id {
                        v.push(id);
                    }
                },
                None => {
                    proof {
                        assert(!model::has_member_row(self.members@, id));
                    }
                },
            }
            j = j + 1;
        }
        proof {
            assert(self.tracked_members@.take(n as int) =~= self.tracked_members@);
        }
        if v.len() == 0 {
            None
        } else {
            Some(v)
        }
    }

    /// Returns the platform user ids of the server's tracked members, in
    /// tracked-table order, or nothing when the server has none.
    pub fn fetch_tracked_user_members(&self, server_id: u64) -> (r: Option<Vec<u64>>)
        requires
            self.wf(),
        ensures
            r is Some <==> model::tracked_users_of(
                self.tracked_members@,
                self.members@,
                server_id,
            ).len() > 0,
            r matches Some(v) ==> v@ == model::tracked_users_of(
                self.tracked_members@,
                self.members@,
                server_id,
            ),
    {
        let n = self.tracked_members.len();
        let mut v: Vec<u64> = Vec::new();
        let mut j: usize = 0;
        while j < n
            invariant
                self.wf(),
                n == self.tracked_members@.len(),
                j <= n,
                v@ == model::tracked_users_of(
                    self.tracked_members@.take(j as int),
                    self.members@,
                    server_id,
                ),
            decreases n - j,
        {
            proof {
                assert(self.tracked_members@.take(j + 1).drop_last() =~= self.tracked_members@.take(
                    j as int,
                ));
                assert(self.tracked_members@.take(j + 1).last() == self.tracked_members@[j as int]);
            }
            let id = self.tracked_members[j].member_id;
            match self.member_index_by_id(id) {
                Some(k) => {
                    proof {
                        let c = choose|c: int|
                            0 <= c < self.members@.len() && self.members@[c].member_id == id;
                        assert(c == k);
                        assert(model::member_row(self.members@, id) == self.members@[k as int]);
                    }
                    if self.members[k].server_id == server_id {
                        v.push(self.members[k].user_id);
                    }
                },
                None => {
                    proof {
                        assert(!model::has_member_row(self.members@, id));
                    }
                },
            }
            j = j + 1;
        }
        proof {
            assert(self.tracked_members@.take(n as int) =~= self.tracked_members@);
        }
        if v.len() == 0 {
            None
        } else {
            Some(v)
        }
    }

    /// Checks whether the channel is tracked for this server.
    pub fn is_tracked_channel(&self, server_id: u64, channel_id: u64) -> (r: bool)
        requires
            self.wf(),
        ensures
            r == self.tracked_channel_in(server_id, channel_id),
    {
        match self.channel_index(channel_id) {
            Some(k) => self.tracked_channel_present(channel_id) && self.channels[k].server_id
                == server_id,
            None => false,
        }
    }

    /// Returns the server's tracked channel ids, in tracked-table order, or
    /// nothing when the server has none.
    pub fn fetch_tracked_channels(&self, server_id: u64) -> (r: Option<Vec<u64>>)
        requires
            self.wf(),
        ensures
            r is Some <==> model::tracked_channel_ids_of(
                self.tracked_channels@,
                self.channels@,
                server_id,
            ).len() > 0,
            r matches Some(v) ==> v@ == model::tracked_channel_ids_of(
                self.tracked_channels@,
                self.channels@,
                server_id,
            ),
    {
        let n = self.tracked_channels.len();
        let mut v: Vec<u64> = Vec::new();
        let mut j: usize = 0;
        while j < n
            invariant
                self.wf(),
                n == self.tracked_channels@.len(),
                j <= n,
                v@ == model::tracked_channel_ids_of(
                    self.tracked_channels@.take(j as int),
                    self.channels@,
                    server_id,
                ),
            decreases n - j,
        {
            proof {
                assert(self.tracked_channels@.take(j + 1).drop_last()
                    =~= self.tracked_channels@.take(j as int));
                assert(self.tracked_channels@.take(j + 1).last() == self.tracked_channels@[
                    j as int]);
            }
            let id = self.tracked_channels[j].channel_id;
            match self.channel_index(id) {
                Some(k) => {
                    proof {
                        let c = choose|c: int|
                            0 <= c < self.channels@.len() && self.channels@[c].channel_id == id;
                        assert(c == k);
                        assert(model::channel_row(self.channels@, id) == self.channels@[k as int]);
                    }
                    if self.channels[k].server_id == server_id {
                        v.push(id);
                    }
                },
                None => {
                    proof {
                        assert(!model::has_channel_row(self.channels@, id));
                    }
                },
            }
            j = j + 1;
        }
        proof {
            assert(self.tracked_channels@.take(n as int) =~= self.tracked_channels@);
        }
        if v.len() == 0 {
            None
        } else {
            Some(v)
        }
    }

    /// Adds a member to the tracked members, creating the server, user and
    /// member rows as needed. Fails only when a member row is needed and
    /// the member-id counter is exhausted.
    pub fn add_tracked_member(&mut self, server_id: u64, user_id: u64) -> (r: Result<
        InsertResult,
        StorageError,
    >)
        requires
            old(self).wf(),
        ensures
            final(self).wf(),
            final(self).channels@ == old(self).channels@,
            final(self).tracked_channels@ == old(self).tracked_channels@,
            final(self).words@ == old(self).words@,
            final(self).member_words@ == old(self).member_words@,
            final(self).next_word_id == old(self).next_word_id,
            final(self).has_server(server_id),
            final(self).has_user(user_id),
            r is Ok ==> final(self).has_member(server_id, user_id) && final(self).is_tracked_member_id(final(self).member_id_of(server_id, user_id)),
            r == Ok::<InsertResult, StorageError>(InsertResult::AlreadyPresent) <==> old(self).has_member(server_id, user_id) && old(self).is_tracked_member_id(
                old(self).member_id_of(server_id, user_id),
            ),
            r == Ok::<InsertResult, StorageError>(InsertResult::AlreadyPresent) || r is Err
                ==> final(self).members@ == old(self).members@ && final(self).tracked_members@
                == old(self).tracked_members@ && final(self).next_member_id == old(self).next_member_id,
            r is Err <==> !old(self).has_member(server_id, user_id) && old(self).next_member_id
                == u32::MAX,
            r is Err ==> r == Err::<InsertResult, StorageError>(
                StorageError::MemberIdSpaceExhausted,
            ),
            r == Ok::<InsertResult, StorageError>(InsertResult::Added) && old(self).has_member(
                server_id,
                user_id,
            ) ==> final(self).members@ == old(self).members@ && final(self).tracked_members@ == old(self).tracked_members@.push(
                TrackedMember { member_id: old(self).member_id_of(server_id, user_id) },
            ) && final(self).next_member_id == old(self).next_member_id,
            r == Ok::<InsertResult, StorageError>(InsertResult::Added) && !old(self).has_member(
                server_id,
                user_id,
            ) ==> final(self).members@ == old(self).members@.push(
                Member { member_id: old(self).next_member_id, user_id, server_id },
            ) && final(self).tracked_members@ == old(self).tracked_members@.push(
                TrackedMember { member_id: old(self).next_member_id },
            ) && final(self).next_member_id == old(self).next_member_id + 1,
    {
        self.ensure_server(server_id);
        self.ensure_user(user_id);
        match self.fetch_member(server_id, user_id) {
            Some(member_id) => {
                proof {
                    let c = choose|j: int|
                        0 <= j < self.members@.len() && self.members@[j].server_id == server_id
                            && self.members@[j].user_id == user_id;
                    assert(self.members@[c].member_id == member_id);
                }
                if self.tracked_member_present(member_id) {
                    Ok(InsertResult::AlreadyPresent)
                } else {
                    let ghost pre = self.tracked_members@;
                    self.tracked_members.push(TrackedMember { member_id });
                    proof {
                        let tn = pre.len() as int;
                        assert(forall|k: int| 0 <= k < tn ==> self.tracked_members@[k] == pre[k]);
                        assert(self.tracked_members@[tn].member_id == member_id);
                        assert forall|i: int|
                            0 <= i < self.tracked_members@.len() implies model::has_member_row(
                            self.members@,
                            #[trigger] self.tracked_members@[i].member_id,
                        ) by {
                            if i < tn {
                                assert(self.tracked_members@[i] == pre[i]);
                            } else {
                                let c = choose|j: int|
                                    0 <= j < self.members@.len() && self.members@[j].server_id
                                        == server_id && self.members@[j].user_id == user_id;
                                assert(self.members@[c].member_id == member_id);
                            }
                        }
                    }
                    Ok(InsertResult::Added)
                }
            },
            None => {
                if self.next_member_id == u32::MAX {
                    Err(StorageError::MemberIdSpaceExhausted)
                } else {
                    let member_id = self.next_member_id;
                    let ghost pre_members = self.members@;
                    let ghost pre_tracked = self.tracked_members@;
                    self.members.push(Member { member_id, user_id, server_id });
                    self.next_member_id = member_id + 1;
                    self.tracked_members.push(TrackedMember { member_id });
                    proof {
                        let n = pre_members.len() as int;
                        let tn = pre_tracked.len() as int;
                        assert(forall|k: int| 0 <= k < n ==> self.members@[k] == pre_members[k]);
                        assert(self.members@[n] == Member { member_id, user_id, server_id });
                        assert(forall|k: int|
                            0 <= k < tn ==> self.tracked_members@[k] == pre_tracked[k]);
                        assert(self.tracked_members@[tn].member_id == member_id);
                        // the new pair is present, and is the only such pair
                        assert(self.has_member(server_id, user_id));
                        let c = choose|j: int|
                            0 <= j < self.members@.len() && self.members@[j].server_id == server_id
                                && self.members@[j].user_id == user_id;
                        assert(c == n);
                        assert(self.member_id_of(server_id, user_id) == member_id);
                        assert(self.is_tracked_member_id(member_id));
                        // each tracked id still names a member row
                        assert forall|i: int|
                            0 <= i < self.tracked_members@.len() implies model::has_member_row(
                            self.members@,
                            #[trigger] self.tracked_members@[i].member_id,
                        ) by {
                            if i < tn {
                                assert(self.tracked_members@[i] == pre_tracked[i]);
                                assert(model::has_member_row(
                                    pre_members,
                                    pre_tracked[i].member_id,
                                ));
                                let w = choose|k: int|
                                    0 <= k < pre_members.len() && pre_members[k].member_id
                                        == pre_tracked[i].member_id;
                                assert(self.members@[w].member_id == pre_tracked[i].member_id);
                            } else {
                                assert(self.members@[n].member_id == member_id);
                            }
                        }
                        // each member row still names its server and user
                        assert forall|i: int|
                            0 <= i < self.members@.len() implies model::has_server_row(
                            self.servers@,
                            #[trigger] self.members@[i].server_id,
                        ) && model::has_user_row(self.users@, self.members@[i].user_id) by {
                            if i < n {
                                assert(self.members@[i] == pre_members[i]);
                            }
                        }
                    }
                    Ok(InsertResult::Added)
                }
            },
        }
    }

    /// Removes a member from the tracked members, if it is one.
    pub fn remove_tracked_member(&mut self, server_id: u64, user_id: u64) -> (r: RemoveResult)
        requires
            old(self).wf(),
        ensures
            final(self).wf(),
            final(self).servers@ == old(self).servers@,
            final(self).users@ == old(self).users@,
            final(self).members@ == old(self).members@,
            final(self).channels@ == old(self).channels@,
            final(self).tracked_channels@ == old(self).tracked_channels@,
            final(self).words@ == old(self).words@,
            final(self).member_words@ == old(self).member_words@,
            final(self).next_member_id == old(self).next_member_id,
            final(self).next_word_id == old(self).next_word_id,
            r == RemoveResult::Removed <==> old(self).has_member(server_id, user_id) && old(self).is_tracked_member_id(old(self).member_id_of(server_id, user_id)),
            r == RemoveResult::NotPresent ==> final(self).tracked_members@ == old(self).tracked_members@,
            r == RemoveResult::Removed ==> {
                &&& final(self).tracked_members@.len() == old(self).tracked_members@.len() - 1
                &&& !final(self).is_tracked_member_id(old(self).member_id_of(server_id, user_id))
                &&& forall|id: u32|
                    id != old(self).member_id_of(server_id, user_id) ==> (final(self).is_tracked_member_id(id) <==> old(self).is_tracked_member_id(id))
            },
    {
        match self.fetch_tracked_member(server_id, user_id) {
            Some(member_id) => {
                match self.tracked_member_index(member_id) {
                    Some(j) => {
                        let ghost pre = self.tracked_members@;
                        self.tracked_members.remove(j);
                        proof {
                            pre.remove_ensures(j as int);
                            assert forall|a: int, b: int|
                                0 <= a < b < self.tracked_members@.len() implies self.tracked_members@[a].member_id
                                != self.tracked_members@[b].member_id by {
                                let a0: int = if a < j { a } else { a + 1 };
                                let b0: int = if b < j { b } else { b + 1 };
                                assert(self.tracked_members@[a] == pre[a0]);
                                assert(self.tracked_members@[b] == pre[b0]);
                            }
                            assert forall|i: int|
                                0 <= i < self.tracked_members@.len() implies model::has_member_row(
                                self.members@,
                                #[trigger] self.tracked_members@[i].member_id,
                            ) by {
                                let i0: int = if i < j { i } else { i + 1 };
                                assert(self.tracked_members@[i] == pre[i0]);
                            }
                            assert(!model::tracked_member_has(self.tracked_members@, member_id))
                                by {
                                if model::tracked_member_has(self.tracked_members@, member_id) {
                                    let w = choose|w: int|
                                        0 <= w < self.tracked_members@.len()
                                            && self.tracked_members@[w].member_id == member_id;
                                    let w0: int = if w < j { w } else { w + 1 };
                                    assert(pre[w0].member_id == member_id);
                                    assert(w0 != j);
                                }
                            }
                            assert forall|id: u32| id != member_id implies (model::tracked_member_has(
                                self.tracked_members@,
                                id,
                            ) <==> model::tracked_member_has(pre, id)) by {
                                if model::tracked_member_has(pre, id) {
                                    let w = choose|w: int|
                                        0 <= w < pre.len() && pre[w].member_id == id;
                                    assert(w != j);
                                    let w1: int = if w < j { w } else { w - 1 };
                                    assert(self.tracked_members@[w1] == pre[w]);
                                }
                                if model::tracked_member_has(self.tracked_members@, id) {
                                    let w = choose|w: int|
                                        0 <= w < self.tracked_members@.len()
                                            && self.tracked_members@[w].member_id == id;
                                    let w0: int = if w < j { w } else { w + 1 };
                                    assert(pre[w0].member_id == id);
                                }
                            }
                        }
                        RemoveResult::Removed
                    },
                    None => RemoveResult::NotPresent,
                }
            },
            None => RemoveResult::NotPresent,
        }
    }

    /// Adds a channel to the tracked channels, creating the server and
    /// channel rows as needed.
    pub fn add_tracked_channel(&mut self, server_id: u64, channel_id: u64) -> (r: InsertResult)
        requires
            old(self).wf(),
        ensures
            final(self).wf(),
            final(self).users@ == old(self).users@,
            final(self).members@ == old(self).members@,
            final(self).tracked_members@ == old(self).tracked_members@,
            final(self).words@ == old(self).words@,
            final(self).member_words@ == old(self).member_words@,
            final(self).next_member_id == old(self).next_member_id,
            final(self).next_word_id == old(self).next_word_id,
            final(self).has_server(server_id),
            final(self).is_tracked_channel_id(channel_id),
            final(self).has_channel(channel_id),
            r == InsertResult::AlreadyPresent <==> old(self).tracked_channel_in(
                server_id,
                channel_id,
            ),
            r == InsertResult::AlreadyPresent ==> final(self).channels@ == old(self).channels@
                && final(self).tracked_channels@ == old(self).tracked_channels@ && final(self).servers@ == old(self).servers@,
            !old(self).has_channel(channel_id) ==> final(self).channels@ == old(self).channels@.push(Channel { channel_id, server_id }),
            old(self).has_channel(channel_id) ==> final(self).channels@ == old(self).channels@,
            r == InsertResult::Added && !old(self).is_tracked_channel_id(channel_id) ==> final(self).tracked_channels@ == old(self).tracked_channels@.push(TrackedChannel { channel_id }),
            old(self).is_tracked_channel_id(channel_id) ==> final(self).tracked_channels@ == old(self).tracked_channels@,
    {
        if self.is_tracked_channel(server_id, channel_id) {
            proof {
                let c = choose|j: int|
                    0 <= j < self.channels@.len() && self.channels@[j].channel_id == channel_id;
                assert(self.channels@[c] == self.channel_by_id(channel_id));
                assert(model::has_server_row(self.servers@, self.channels@[c].server_id));
            }
            InsertResult::AlreadyPresent
        } else {
            let channel_missing = self.channel_index(channel_id).is_none();
            let tracked_missing = !self.tracked_channel_present(channel_id);
            self.ensure_server(server_id);
            let ghost mid = *self;
            if channel_missing {
                self.channels.push(Channel { channel_id, server_id });
            }
            if tracked_missing {
                self.tracked_channels.push(TrackedChannel { channel_id });
            }
            proof {
                let cn = mid.channels@.len() as int;
                let tn = mid.tracked_channels@.len() as int;
                assert(forall|k: int| 0 <= k < cn ==> self.channels@[k] == mid.channels@[k]);
                assert(forall|k: int|
                    0 <= k < tn ==> self.tracked_channels@[k] == mid.tracked_channels@[k]);
                if channel_missing {
                    assert(self.channels@[cn] == Channel { channel_id, server_id });
                }
                if tracked_missing {
                    assert(self.tracked_channels@[tn].channel_id == channel_id);
                }
                // the channel row exists afterwards
                assert(model::has_channel_row(self.channels@, channel_id)) by {
                    if channel_missing {
                        assert(self.channels@[cn].channel_id == channel_id);
                    } else {
                        let w = choose|w: int|
                            0 <= w < mid.channels@.len() && mid.channels@[w].channel_id
                                == channel_id;
                        assert(self.channels@[w].channel_id == channel_id);
                    }
                }
                // the tracked row exists afterwards
                assert(model::tracked_channel_has(self.tracked_channels@, channel_id)) by {
                    if tracked_missing {
                        assert(self.tracked_channels@[tn].channel_id == channel_id);
                    } else {
                        let w = choose|w: int|
                            0 <= w < mid.tracked_channels@.len()
                                && mid.tracked_channels@[w].channel_id == channel_id;
                        assert(self.tracked_channels@[w].channel_id == channel_id);
                    }
                }
                // channel ids stay unique
                assert forall|a: int, b: int|
                    0 <= a < b < self.channels@.len() implies self.channels@[a].channel_id
                    != self.channels@[b].channel_id by {
                    assert(self.channels@[a] == mid.channels@[a]);
                    if b < cn {
                        assert(self.channels@[b] == mid.channels@[b]);
                    } else {
                        assert(channel_missing);
                        assert(!model::has_channel_row(mid.channels@, channel_id));
                        if mid.channels@[a].channel_id == channel_id {
                            assert(model::has_channel_row(mid.channels@, channel_id));
                        }
                    }
                }
                // tracked channel ids stay unique
                assert forall|a: int, b: int|
                    0 <= a < b < self.tracked_channels@.len() implies self.tracked_channels@[a].channel_id
                    != self.tracked_channels@[b].channel_id by {
                    assert(self.tracked_channels@[a] == mid.tracked_channels@[a]);
                    if b < tn {
                        assert(self.tracked_channels@[b] == mid.tracked_channels@[b]);
                    } else {
                        assert(tracked_missing);
                        assert(!model::tracked_channel_has(mid.tracked_channels@, channel_id));
                        if mid.tracked_channels@[a].channel_id == channel_id {
                            assert(model::tracked_channel_has(mid.tracked_channels@, channel_id));
                        }
                    }
                }
                // every channel row still names a server row
                assert forall|i: int|
                    0 <= i < self.channels@.len() implies model::has_server_row(
                    self.servers@,
                    #[trigger] self.channels@[i].server_id,
                ) by {
                    if i < cn {
                        assert(self.channels@[i] == mid.channels@[i]);
                    } else {
                        assert(self.channels@[i].server_id == server_id);
                    }
                }
                // every tracked row still names a channel row
                assert forall|i: int|
                    0 <= i < self.tracked_channels@.len() implies model::has_channel_row(
                    self.channels@,
                    #[trigger] self.tracked_channels@[i].channel_id,
                ) by {
                    if i < tn {
                        assert(self.tracked_channels@[i] == mid.tracked_channels@[i]);
                        assert(model::has_channel_row(
                            mid.channels@,
                            mid.tracked_channels@[i].channel_id,
                        ));
                        let w = choose|w: int|
                            0 <= w < mid.channels@.len() && mid.channels@[w].channel_id
                                == self.tracked_channels@[i].channel_id;
                        assert(self.channels@[w].channel_id == self.tracked_channels@[
                            i].channel_id);
                    } else {
                        assert(model::has_channel_row(self.channels@, channel_id));
                    }
                }
            }
            InsertResult::Added
        }
    }

    /// Removes a channel from the tracked channels, if it is tracked for
    /// this server.
    pub fn remove_tracked_channel(&mut self, server_id: u64, channel_id: u64) -> (r: RemoveResult)
        requires
            old(self).wf(),
        ensures
            final(self).wf(),
            final(self).servers@ == old(self).servers@,
            final(self).users@ == old(self).users@,
            final(self).members@ == old(self).members@,
            final(self).tracked_members@ == old(self).tracked_members@,
            final(self).channels@ == old(self).channels@,
            final(self).words@ == old(self).words@,
            final(self).member_words@ == old(self).member_words@,
            final(self).next_member_id == old(self).next_member_id,
            final(self).next_word_id == old(self).next_word_id,
            r == RemoveResult::Removed <==> old(self).tracked_channel_in(server_id, channel_id),
            r == RemoveResult::NotPresent ==> final(self).tracked_channels@ == old(self).tracked_channels@,
            r == RemoveResult::Removed ==> {
                &&& final(self).tracked_channels@.len() == old(self).tracked_channels@.len() - 1
                &&& !final(self).is_tracked_channel_id(channel_id)
                &&& forall|id: u64|
                    id != channel_id ==> (final(self).is_tracked_channel_id(id) <==> old(self).is_tracked_channel_id(id))
            },
    {
        if self.is_tracked_channel(server_id, channel_id) {
            match self.tracked_channel_index(channel_id) {
                Some(j) => {
                    let ghost pre = self.tracked_channels@;
                    self.tracked_channels.remove(j);
                    proof {
                        pre.remove_ensures(j as int);
                        assert forall|a: int, b: int|
                            0 <= a < b < self.tracked_channels@.len() implies self.tracked_channels@[a].channel_id
                            != self.tracked_channels@[b].channel_id by {
                            let a0: int = if a < j { a } else { a + 1 };
                            let b0: int = if b < j { b } else { b + 1 };
                            assert(self.tracked_channels@[a] == pre[a0]);
                            assert(self.tracked_channels@[b] == pre[b0]);
                        }
                        assert forall|i: int|
                            0 <= i < self.tracked_channels@.len() implies model::has_channel_row(
                            self.channels@,
                            #[trigger] self.tracked_channels@[i].channel_id,
                        ) by {
                            let i0: int = if i < j { i } else { i + 1 };
                            assert(self.tracked_channels@[i] == pre[i0]);
                        }
                        assert(!model::tracked_channel_has(self.tracked_channels@, channel_id))
                            by {
                            if model::tracked_channel_has(self.tracked_channels@, channel_id) {
                                let w = choose|w: int|
                                    0 <= w < self.tracked_channels@.len()
                                        && self.tracked_channels@[w].channel_id == channel_id;
                                let w0: int = if w < j { w } else { w + 1 };
                                assert(pre[w0].channel_id == channel_id);
                                assert(w0 != j);
                            }
                        }
                        assert forall|id: u64| id != channel_id implies (model::tracked_channel_has(
                            self.tracked_channels@,
                            id,
                        ) <==> model::tracked_channel_has(pre, id)) by {
                            if model::tracked_channel_has(pre, id) {
                                let w = choose|w: int| 0 <= w < pre.len() && pre[w].channel_id
                                    == id;
                                assert(w != j);
                                let w1: int = if w < j { w } else { w - 1 };
                                assert(self.tracked_channels@[w1] == pre[w]);
                            }
                            if model::tracked_channel_has(self.tracked_channels@, id) {
                                let w = choose|w: int|
                                    0 <= w < self.tracked_channels@.len()
                                        && self.tracked_channels@[w].channel_id == id;
                                let w0: int = if w < j { w } else { w + 1 };
                                assert(pre[w0].channel_id == id);
                            }
                        }
                    }
                    RemoveResult::Removed
                },
                None => RemoveResult::NotPresent,
            }
        } else {
            RemoveResult::NotPresent
        }
    }

    /// Returns the index of the dictionary row carrying this text.
    fn word_index_by_text(&self, word: &String) -> (r: Option<usize>)
        ensures
            r is Some <==> model::has_word_text(self.words@, word@),
            r matches Some(j) ==> j < self.words@.len() && self.words@[j as int].word@ == word@,
    {
        let n = self.words.len();
        let mut j: usize = 0;
        while j < n
            invariant
                n == self.words@.len(),
                j <= n,
                forall|k: int| 0 <= k < j ==> self.words@[k].word@ != word@,
            decreases n - j,
        {
            if self.words[j].word == *word {
                return Some(j);
            }
            j = j + 1;
        }
        None
    }

    /// Returns whether a dictionary row carries this word id.
    fn word_id_present(&self, word_id: u32) -> (r: bool)
        ensures
            r == model::has_word_id(self.words@, word_id),
    {
        let n = self.words.len();
        let mut j: usize = 0;
        while j < n
            invariant
                n == self.words@.len(),
                j <= n,
                forall|k: int| 0 <= k < j ==> self.words@[k].word_id != word_id,
            decreases n - j,
        {
            if self.words[j].word_id == word_id {
                return true;
            }
            j = j + 1;
        }
        false
    }

    /// Returns the id of the dictionary row carrying this word, if any.
    pub fn fetch_word_id(&self, word: &String) -> (r: Option<u32>)
        requires
            self.wf(),
        ensures
            r is Some <==> model::has_word_text(self.words@, word@),
            r matches Some(id) ==> id == model::word_id_of(self.words@, word@),
    {
        match self.word_index_by_text(word) {
            Some(j) => {
                proof {
                    model::lemma_word_id_at(self.words@, j as int);
                }
                Some(self.words[j].word_id)
            },
            None => None,
        }
    }

    /// Returns how many distinct words the dictionary holds.
    pub fn word_count(&self) -> (r: usize)
        ensures
            r == self.words@.len(),
    {
        self.words.len()
    }

    /// Returns the text of the dictionary row with this word id, if any.
    pub fn resolve_word(&self, word_id: u32) -> (r: Option<String>)
        requires
            self.wf(),
        ensures
            r is Some <==> model::has_word_id(self.words@, word_id),
            r matches Some(text) ==> text@ == model::word_text_of(self.words@, word_id),
    {
        let n = self.words.len();
        let mut j: usize = 0;
        while j < n
            invariant
                self.wf(),
                n == self.words@.len(),
                j <= n,
                forall|k: int| 0 <= k < j ==> self.words@[k].word_id != word_id,
            decreases n - j,
        {
            if self.words[j].word_id == word_id {
                proof {
                    model::lemma_word_id_at(self.words@, j as int);
                }
                return Some(self.words[j].word.clone());
            }
            j = j + 1;
        }
        None
    }

    /// Gets or creates a dictionary row for every word, preserving the
    /// caller's order, and returns the ids in that order. Words that exist
    /// keep their ids; missing words get fresh consecutive ids. Fails only
    /// when the id space cannot hold every missing word; rows created
    /// before the failure remain.
    pub fn add_words(&mut self, words: Vec<String>) -> (r: Result<Vec<i32>, StorageError>)
        requires
            old(self).wf(),
        ensures
            final(self).wf(),
            final(self).servers@ == old(self).servers@,
            final(self).users@ == old(self).users@,
            final(self).members@ == old(self).members@,
            final(self).tracked_members@ == old(self).tracked_members@,
            final(self).channels@ == old(self).channels@,
            final(self).tracked_channels@ == old(self).tracked_channels@,
            final(self).member_words@ == old(self).member_words@,
            final(self).next_member_id == old(self).next_member_id,
            old(self).words@.len() <= final(self).words@.len(),
            forall|k: int|
                0 <= k < old(self).words@.len() ==> final(self).words@[k] == old(self).words@[k],
            final(self).next_word_id == old(self).next_word_id + final(self).words@.len() - old(self).words@.len(),
            forall|k: int|
                old(self).words@.len() <= k < final(self).words@.len() ==> (#[trigger] final(self).words@[k]).word_id == old(self).next_word_id + k - old(self).words@.len()
                    && model::contains_text(
                    model::texts_of(words@),
                    final(self).words@[k].word@,
                ),
            r is Ok <==> old(self).next_word_id + model::missing_count(
                old(self).words@,
                model::texts_of(words@),
            ) <= MAX_WORD_ID + 1,
            r is Err ==> r == Err::<Vec<i32>, StorageError>(StorageError::WordIdSpaceExhausted),
            r matches Ok(ids) ==> {
                &&& ids@.len() == words@.len()
                &&& forall|i: int|
                    0 <= i < ids@.len() ==> model::has_word_text(
                        final(self).words@,
                        (#[trigger] words@[i])@,
                    ) && ids@[i] == model::word_id_of(final(self).words@, words@[i]@) as i32
                &&& forall|t: Seq<char>|
                    model::has_word_text(final(self).words@, t) <==> model::has_word_text(
                        old(self).words@,
                        t,
                    ) || model::contains_text(model::texts_of(words@), t)
            },
    {
        let ghost texts = model::texts_of(words@);
        let n = words.len();
        let mut ids: Vec<i32> = Vec::new();
        let mut i: usize = 0;
        while i < n
            invariant
                self.wf(),
                n == words@.len(),
                texts == model::texts_of(words@),
                i <= n,
                ids@.len() == i,
                self.servers@ == old(self).servers@,
                self.users@ == old(self).users@,
                self.members@ == old(self).members@,
                self.tracked_members@ == old(self).tracked_members@,
                self.channels@ == old(self).channels@,
                self.tracked_channels@ == old(self).tracked_channels@,
                self.member_words@ == old(self).member_words@,
                self.next_member_id == old(self).next_member_id,
                old(self).words@.len() <= self.words@.len(),
                forall|k: int|
                    0 <= k < old(self).words@.len() ==> self.words@[k] == old(self).words@[k],
                self.next_word_id == old(self).next_word_id + self.words@.len() - old(self).words@.len(),
                self.next_word_id as int == old(self).next_word_id + model::missing_count(
                    old(self).words@,
                    texts.take(i as int),
                ),
                forall|k: int|
                    old(self).words@.len() <= k < self.words@.len() ==> (
                    #[trigger] self.words@[k]).word_id == old(self).next_word_id + k - old(self).words@.len() && model::contains_text(texts, self.words@[k].word@),
                forall|t: Seq<char>|
                    model::has_word_text(self.words@, t) <==> model::has_word_text(
                        old(self).words@,
                        t,
                    ) || model::contains_text(texts.take(i as int), t),
                forall|k: int|
                    0 <= k < i ==> model::has_word_text(self.words@, #[trigger] texts[k])
                        && ids@[k] == model::word_id_of(self.words@, texts[k]) as i32,
            decreases n - i,
        {
            let w = &words[i];
            proof {
                assert(texts[i as int] == w@);
                assert(texts.take(i + 1).drop_last() =~= texts.take(i as int));
                assert(texts.take(i + 1).last() == texts[i as int]);
            }
            match self.word_index_by_text(w) {
                Some(j) => {
                    proof {
                        model::lemma_word_id_at(self.words@, j as int);
                        // a found word is an old word or an earlier input word
                        assert(model::has_word_text(old(self).words@, texts[i as int])
                            || model::contains_text(texts.take(i as int), texts[i as int]));
                        assert forall|t: Seq<char>|
                            model::has_word_text(self.words@, t) <==> model::has_word_text(
                                old(self).words@,
                                t,
                            ) || model::contains_text(texts.take(i + 1), t) by {
                            if model::contains_text(texts.take(i + 1), t) {
                                let x = choose|x: int|
                                    0 <= x < texts.take(i + 1).len() && (#[trigger] texts.take(i + 1)[x]) == t;
                                if x < i {
                                    assert(texts.take(i as int)[x] == t);
                                    assert(model::contains_text(texts.take(i as int), t));
                                }
                            }
                            if model::has_word_text(self.words@, t) && model::contains_text(
                                texts.take(i as int),
                                t,
                            ) {
                                let x = choose|x: int|
                                    0 <= x < texts.take(i as int).len() && (#[trigger] texts.take(i as int)[x]) == t;
                                assert(texts.take(i + 1)[x] == t);
                            }
                        }
                    }
                    ids.push(self.words[j].word_id as i32);
                },
                None => {
                    proof {
                        assert(!model::has_word_text(old(self).words@, texts[i as int]));
                        assert(!model::contains_text(texts.take(i as int), texts[i as int]));
                    }
                    if self.next_word_id > MAX_WORD_ID {
                        proof {
                            model::lemma_missing_count_mono(
                                old(self).words@,
                                texts,
                                i as int,
                                n as int,
                            );
                            assert(texts.take(n as int) =~= texts);
                        }
                        return Err(StorageError::WordIdSpaceExhausted);
                    }
                    let id = self.next_word_id;
                    let ghost pre_words = self.words@;
                    self.words.push(Word { word_id: id, word: w.clone() });
                    self.next_word_id = id + 1;
                    ids.push(id as i32);
                    proof {
                        let pn = pre_words.len() as int;
                        let ghost e = self.words@[pn];
                        assert(forall|k: int| 0 <= k < pn ==> self.words@[k] == pre_words[k]);
                        assert(e.word_id == id);
                        assert(e.word@ == texts[i as int]);
                        assert(self.words@ == pre_words.push(e));
                        // uniqueness of the grown table
                        assert forall|a: int, b: int|
                            0 <= a < b < self.words@.len() implies self.words@[a].word_id
                            != self.words@[b].word_id && self.words@[a].word@
                            != self.words@[b].word@ by {
                            assert(self.words@[a] == pre_words[a]);
                            if b < pn {
                                assert(self.words@[b] == pre_words[b]);
                            } else {
                                if pre_words[a].word@ == texts[i as int] {
                                    assert(model::has_word_text(pre_words, texts[i as int]));
                                }
                            }
                        }
                        // edges still reference the grown table
                        assert forall|i2: int|
                            0 <= i2 < self.member_words@.len() implies model::has_word_id(
                            self.words@,
                            #[trigger] self.member_words@[i2].word_id,
                        ) && model::has_word_id(self.words@, self.member_words@[i2].next_word_id)
                            by {
                            let wa = choose|wa: int|
                                0 <= wa < pre_words.len() && pre_words[wa].word_id
                                    == self.member_words@[i2].word_id;
                            assert(self.words@[wa].word_id == self.member_words@[i2].word_id);
                            let wb = choose|wb: int|
                                0 <= wb < pre_words.len() && pre_words[wb].word_id
                                    == self.member_words@[i2].next_word_id;
                            assert(self.words@[wb].word_id == self.member_words@[i2].next_word_id);
                        }
                        // the text characterization after the insertion
                        assert forall|t: Seq<char>|
                            model::has_word_text(self.words@, t) <==> model::has_word_text(
                                old(self).words@,
                                t,
                            ) || model::contains_text(texts.take(i + 1), t) by {
                            if model::has_word_text(self.words@, t) {
                                let x = choose|x: int|
                                    0 <= x < self.words@.len() && self.words@[x].word@ == t;
                                if x < pn {
                                    assert(pre_words[x].word@ == t);
                                    assert(model::has_word_text(pre_words, t));
                                } else {
                                    assert(texts.take(i + 1)[i as int] == t);
                                }
                            }
                            if model::has_word_text(old(self).words@, t) || model::contains_text(
                                texts.take(i + 1),
                                t,
                            ) {
                                if model::has_word_text(old(self).words@, t)
                                    || model::contains_text(texts.take(i as int), t) {
                                    let x = choose|x: int|
                                        0 <= x < pre_words.len() && pre_words[x].word@ == t;
                                    assert(self.words@[x].word@ == t);
                                } else {
                                    let x = choose|x: int|
                                        0 <= x < texts.take(i + 1).len() && (#[trigger] texts.take(i + 1)[x]) == t;
                                    if x < i {
                                        assert(texts.take(i as int)[x] == t);
                                    }
                                    assert(t == texts[i as int]);
                                    assert(self.words@[pn].word@ == t);
                                }
                            }
                        }
                        // earlier ids keep their rows
                        assert forall|k: int|
                            0 <= k < i implies model::has_word_text(
                            self.words@,
                            #[trigger] texts[k],
                        ) && ids@[k] == model::word_id_of(self.words@, texts[k]) as i32 by {
                            model::lemma_word_id_push(pre_words, e, texts[k]);
                        }
                        model::lemma_word_id_at(self.words@, pn);
                        assert(model::has_word_text(self.words@, texts[i as int]));
                    }
                },
            }
            i = i + 1;
        }
        proof {
            assert(texts.take(n as int) =~= texts);
            assert forall|k: int| 0 <= k < words@.len() implies model::has_word_text(
                self.words@,
                (#[trigger] words@[k])@,
            ) && ids@[k] == model::word_id_of(self.words@, words@[k]@) as i32 by {
                assert(texts[k] == words@[k]@);
            }
        }
        Ok(ids)
    }

    /// Returns the index of the edge row with this `(member, word, next
    /// word)` triple.
    fn edge_index_of(&self, member_id: u32, word_id: u32, next_word_id: u32) -> (r: Option<usize>)
        ensures
            r is Some <==> model::has_edge(self.member_words@, member_id, word_id, next_word_id),
            r matches Some(j) ==> j < self.member_words@.len() && model::is_triple(
                self.member_words@[j as int],
                member_id,
                word_id,
                next_word_id,
            ),
    {
        let n = self.member_words.len();
        let mut j: usize = 0;
        while j < n
            invariant
                n == self.member_words@.len(),
                j <= n,
                forall|k: int|
                    0 <= k < j ==> !model::is_triple(
                        self.member_words@[k],
                        member_id,
                        word_id,
                        next_word_id,
                    ),
            decreases n - j,
        {
            if self.member_words[j].member_id == member_id && self.member_words[j].word_id
                == word_id && self.member_words[j].next_word_id == next_word_id {
                return Some(j);
            }
            j = j + 1;
        }
        None
    }

    /// Returns the total weight stored across all members' edges.
    fn total_frequency(&self) -> (r: u64)
        requires
            self.wf(),
        ensures
            r as nat == model::total_freq(self.member_words@),
    {
        let n = self.member_words.len();
        let mut acc: u64 = 0;
        let mut j: usize = 0;
        while j < n
            invariant
                self.wf(),
                n == self.member_words@.len(),
                j <= n,
                acc as nat == model::total_freq(self.member_words@.take(j as int)),
            decreases n - j,
        {
            proof {
                assert(self.member_words@.take(j + 1).drop_last() =~= self.member_words@.take(
                    j as int,
                ));
                assert(self.member_words@.take(j + 1).last() == self.member_words@[j as int]);
                model::lemma_total_take_le(self.member_words@, j + 1);
            }
            acc = acc + self.member_words[j].frequency;
            j = j + 1;
        }
        proof {
            assert(self.member_words@.take(n as int) =~= self.member_words@);
        }
        acc
    }

    /// Returns the member's total outgoing weight across all their edges.
    pub fn sum_frequency(&self, member_id: u32) -> (r: u64)
        requires
            self.wf(),
        ensures
            r as nat == model::sum_freq(self.member_words@, member_id),
    {
        let n = self.member_words.len();
        let mut acc: u64 = 0;
        let mut j: usize = 0;
        while j < n
            invariant
                self.wf(),
                n == self.member_words@.len(),
                j <= n,
                acc as nat == model::sum_freq(self.member_words@.take(j as int), member_id),
            decreases n - j,
        {
            proof {
                assert(self.member_words@.take(j + 1).drop_last() =~= self.member_words@.take(
                    j as int,
                ));
                assert(self.member_words@.take(j + 1).last() == self.member_words@[j as int]);
                model::lemma_sum_take_le(self.member_words@, member_id, j + 1);
                model::lemma_sum_le_total(self.member_words@, member_id);
            }
            if self.member_words[j].member_id == member_id {
                acc = acc + self.member_words[j].frequency;
            }
            j = j + 1;
        }
        proof {
            assert(self.member_words@.take(n as int) =~= self.member_words@);
        }
        acc
    }

    /// Returns the frequency recorded for the edge, if the member has it.
    pub fn member_word_frequency(&self, member_id: u32, word_id: u32, next_word_id: u32) -> (r:
        Option<u64>)
        requires
            self.wf(),
        ensures
            r is Some <==> model::has_edge(self.member_words@, member_id, word_id, next_word_id),
            r matches Some(f) ==> f == model::edge_freq(
                self.member_words@,
                member_id,
                word_id,
                next_word_id,
            ),
    {
        match self.edge_index_of(member_id, word_id, next_word_id) {
            Some(j) => {
                proof {
                    model::lemma_edge_at(self.member_words@, j as int);
                }
                Some(self.member_words[j].frequency)
            },
            None => None,
        }
    }

    /// Records one observation of the ordered pair `(word, next word)` for
    /// the member: an existing edge's frequency grows by exactly one, in a
    /// single conditional step; an absent edge is created with frequency
    /// one. Fails only when an endpoint has no dictionary row or the total
    /// stored weight is exhausted.
    pub fn upsert_member_word(&mut self, member_id: u32, word_id: u32, next_word_id: u32) -> (r:
        Result<(), StorageError>)
        requires
            old(self).wf(),
        ensures
            final(self).wf(),
            final(self).servers@ == old(self).servers@,
            final(self).users@ == old(self).users@,
            final(self).members@ == old(self).members@,
            final(self).tracked_members@ == old(self).tracked_members@,
            final(self).channels@ == old(self).channels@,
            final(self).tracked_channels@ == old(self).tracked_channels@,
            final(self).words@ == old(self).words@,
            final(self).next_member_id == old(self).next_member_id,
            final(self).next_word_id == old(self).next_word_id,
            r is Ok <==> model::has_word_id(old(self).words@, word_id) && model::has_word_id(
                old(self).words@,
                next_word_id,
            ) && model::total_freq(old(self).member_words@) < u64::MAX,
            r is Err ==> final(self).member_words@ == old(self).member_words@,
            r is Ok ==> final(self).member_words@ == model::upsert_edge(
                old(self).member_words@,
                member_id,
                word_id,
                next_word_id,
            ),
    {
        if !self.word_id_present(word_id) {
            return Err(StorageError::MissingWord);
        }
        if !self.word_id_present(next_word_id) {
            return Err(StorageError::MissingWord);
        }
        let total = self.total_frequency();
        if total == u64::MAX {
            return Err(StorageError::FrequencyOverflow);
        }
        match self.edge_index_of(member_id, word_id, next_word_id) {
            Some(j) => {
                proof {
                    model::lemma_edge_at(self.member_words@, j as int);
                    model::lemma_freq_le_total(self.member_words@, j as int);
                }
                let f = self.member_words[j].frequency;
                let ghost pre = self.member_words@;
                self.member_words[j] = MemberWord {
                    word_id,
                    member_id,
                    next_word_id,
                    frequency: f + 1,
                };
                proof {
                    let jj = j as int;
                    let e = MemberWord { word_id, member_id, next_word_id, frequency: (f + 1) as u64 };
                    assert(self.member_words@ == pre.update(jj, e));
                    assert(forall|k: int|
                        0 <= k < pre.len() && k != jj ==> self.member_words@[k] == pre[k]);
                    assert(self.member_words@[jj] == e);
                    model::lemma_total_freq_update(pre, jj, e);
                    // uniqueness: the updated row keeps its triple
                    assert forall|a: int, b: int|
                        0 <= a < b < self.member_words@.len() implies !(self.member_words@[a].member_id
                        == self.member_words@[b].member_id && self.member_words@[a].word_id
                        == self.member_words@[b].word_id && self.member_words@[a].next_word_id
                        == self.member_words@[b].next_word_id) by {
                        if a != jj {
                            assert(self.member_words@[a] == pre[a]);
                        }
                        if b != jj {
                            assert(self.member_words@[b] == pre[b]);
                        }
                    }
                    assert forall|i2: int|
                        0 <= i2 < self.member_words@.len() implies model::has_word_id(
                        self.words@,
                        (#[trigger] self.member_words@[i2]).word_id,
                    ) && model::has_word_id(self.words@, self.member_words@[i2].next_word_id)
                        && self.member_words@[i2].frequency >= 1 by {
                        if i2 != jj {
                            assert(self.member_words@[i2] == pre[i2]);
                        } else {
                            assert(pre[jj].word_id == word_id);
                            assert(pre[jj].next_word_id == next_word_id);
                        }
                    }
                }
                Ok(())
            },
            None => {
                let ghost pre = self.member_words@;
                self.member_words.push(
                    MemberWord { word_id, member_id, next_word_id, frequency: 1 },
                );
                proof {
                    let pn = pre.len() as int;
                    assert(forall|k: int| 0 <= k < pn ==> self.member_words@[k] == pre[k]);
                    assert(self.member_words@[pn] == MemberWord {
                        word_id,
                        member_id,
                        next_word_id,
                        frequency: 1u64,
                    });
                    assert(self.member_words@.drop_last() =~= pre);
                    assert forall|a: int, b: int|
                        0 <= a < b < self.member_words@.len() implies !(self.member_words@[a].member_id
                        == self.member_words@[b].member_id && self.member_words@[a].word_id
                        == self.member_words@[b].word_id && self.member_words@[a].next_word_id
                        == self.member_words@[b].next_word_id) by {
                        assert(self.member_words@[a] == pre[a]);
                        if b < pn {
                            assert(self.member_words@[b] == pre[b]);
                        } else {
                            if model::is_triple(pre[a], member_id, word_id, next_word_id) {
                                assert(model::has_edge(pre, member_id, word_id, next_word_id));
                            }
                        }
                    }
                    assert forall|i2: int|
                        0 <= i2 < self.member_words@.len() implies model::has_word_id(
                        self.words@,
                        (#[trigger] self.member_words@[i2]).word_id,
                    ) && model::has_word_id(self.words@, self.member_words@[i2].next_word_id)
                        && self.member_words@[i2].frequency >= 1 by {
                        if i2 < pn {
                            assert(self.member_words@[i2] == pre[i2]);
                        }
                    }
                }
                Ok(())
            },
        }
    }

    /// Learns every adjacent pair of an ordered word sequence for the
    /// member: the words are interned in the dictionary, and each pair is
    /// recorded in input order through one upsert each. A sequence of
    /// fewer than two words records nothing.
    pub fn add_member_words(&mut self, member_id: u32, member_words: Vec<String>) -> (r: Result<
        (),
        AddMemberWordsError,
    >)
        requires
            old(self).wf(),
        ensures
            final(self).wf(),
            final(self).servers@ == old(self).servers@,
            final(self).users@ == old(self).users@,
            final(self).members@ == old(self).members@,
            final(self).tracked_members@ == old(self).tracked_members@,
            final(self).channels@ == old(self).channels@,
            final(self).tracked_channels@ == old(self).tracked_channels@,
            final(self).next_member_id == old(self).next_member_id,
            old(self).words@.len() <= final(self).words@.len(),
            forall|k: int|
                0 <= k < old(self).words@.len() ==> final(self).words@[k] == old(self).words@[k],
            r is Ok <==> old(self).next_word_id + model::missing_count(
                old(self).words@,
                model::texts_of(member_words@),
            ) <= MAX_WORD_ID + 1 && model::total_freq(old(self).member_words@) + (
            if member_words@.len() < 2 {
                0int
            } else {
                member_words@.len() - 1
            }) <= u64::MAX,
            r is Err ==> final(self).member_words@ == old(self).member_words@ && (r == Err::<
                (),
                AddMemberWordsError,
            >(AddMemberWordsError::Storage(StorageError::WordIdSpaceExhausted)) || r == Err::<
                (),
                AddMemberWordsError,
            >(AddMemberWordsError::Storage(StorageError::FrequencyOverflow))),
            r is Ok ==> forall|t: Seq<char>|
                model::has_word_text(final(self).words@, t) <==> model::has_word_text(
                    old(self).words@,
                    t,
                ) || model::contains_text(model::texts_of(member_words@), t),
            r is Ok ==> final(self).member_words@ == model::ingest_pairs(
                old(self).member_words@,
                member_id,
                model::pair_seq(model::ids_of(final(self).words@, member_words@)),
            ),
    {
        let ghost mwords = member_words@;
        let ghost texts = model::texts_of(member_words@);
        let n = member_words.len();
        let ids = match self.add_words(member_words) {
            Ok(v) => v,
            Err(e) => {
                return Err(AddMemberWordsError::Storage(e));
            },
        };
        let ghost mid = *self;
        let ghost idseq = model::ids_of(mid.words@, mwords);
        proof {
            assert(idseq.len() == n);
            assert forall|k: int| 0 <= k < n implies ids@[k] == idseq[k] as i32 && idseq[k]
                <= MAX_WORD_ID && (#[trigger] ids@[k]) as u32 == idseq[k] && model::has_word_id(
                mid.words@,
                idseq[k],
            ) by {
                assert(ids@[k] == model::word_id_of(mid.words@, mwords[k]@) as i32);
                let c = choose|j: int|
                    0 <= j < mid.words@.len() && mid.words@[j].word@ == mwords[k]@;
                assert(mid.words@[c].word_id == model::word_id_of(mid.words@, mwords[k]@));
                lemma_id_roundtrip(idseq[k]);
            }
        }
        let pairs = vec_word_split(ids);
        let ghost pspec = model::pair_seq(idseq);
        let total = self.total_frequency();
        let m = pairs.len();
        proof {
            assert(pspec.len() == m);
        }
        if (m as u64) > u64::MAX - total {
            return Err(AddMemberWordsError::Storage(StorageError::FrequencyOverflow));
        }
        proof {
            assert(pspec.skip(0) =~= pspec);
        }
        let mut k: usize = 0;
        while k < m
            invariant
                self.wf(),
                m == pspec.len(),
                m == pairs@.len(),
                k <= m,
                idseq.len() == n,
                pspec == model::pair_seq(idseq),
                forall|j: int|
                    0 <= j < m ==> #[trigger] pairs@[j]@ == seq![
                        (idseq[j] as i32),
                        (idseq[j + 1] as i32),
                    ] && idseq[j] <= MAX_WORD_ID && idseq[j + 1] <= MAX_WORD_ID,
                forall|j: int|
                    0 <= j < idseq.len() ==> model::has_word_id(mid.words@, #[trigger] idseq[j]),
                self.servers@ == mid.servers@,
                self.users@ == mid.users@,
                self.members@ == mid.members@,
                self.tracked_members@ == mid.tracked_members@,
                self.channels@ == mid.channels@,
                self.tracked_channels@ == mid.tracked_channels@,
                self.words@ == mid.words@,
                self.next_member_id == mid.next_member_id,
                self.next_word_id == mid.next_word_id,
                model::total_freq(self.member_words@) == model::total_freq(mid.member_words@) + k,
                model::total_freq(mid.member_words@) + m <= u64::MAX,
                model::ingest_pairs(self.member_words@, member_id, pspec.skip(k as int))
                    == model::ingest_pairs(mid.member_words@, member_id, pspec),
            decreases m - k,
        {
            let from_id = pairs[k][0] as u32;
            let to_id = pairs[k][1] as u32;
            proof {
                assert(pairs@[k as int]@ == seq![(idseq[k as int] as i32), (idseq[k + 1] as i32)]);
                assert(pairs@[k as int]@[0] == idseq[k as int] as i32);
                assert(pairs@[k as int]@[1] == idseq[k + 1] as i32);
                lemma_id_roundtrip(idseq[k as int]);
                lemma_id_roundtrip(idseq[k + 1]);
                assert(from_id == idseq[k as int]);
                assert(to_id == idseq[k + 1]);
            }
            let ghost cur = self.member_words@;
            match self.upsert_member_word(member_id, from_id, to_id) {
                Ok(_) => {
                    proof {
                        model::lemma_upsert_total(cur, member_id, from_id, to_id);
                        assert(pspec.skip(k as int).drop_first() =~= pspec.skip(k + 1));
                        assert(pspec.skip(k as int)[0] == pspec[k as int]);
                        assert(pspec[k as int] == (idseq[k as int], idseq[k + 1]));
                        assert(model::ingest_pairs(cur, member_id, pspec.skip(k as int))
                            == model::ingest_pairs(
                            model::upsert_edge(cur, member_id, from_id, to_id),
                            member_id,
                            pspec.skip(k + 1),
                        ));
                    }
                },
                Err(_) => {
                    proof {
                        assert(false);
                    }
                },
            }
            k = k + 1;
        }
        proof {
            assert(pspec.skip(m as int) =~= Seq::<(u32, u32)>::empty());
            assert(model::ingest_pairs(self.member_words@, member_id, pspec.skip(m as int))
                == self.member_words@);
        }
        Ok(())
    }
}

impl DbInterface {
    /// Learns from one raw message for the member: the text is normalized
    /// and split into words; fewer than two words teach nothing and succeed
    /// with no effect; otherwise every word is interned and every adjacent
    /// pair is recorded in order.
    pub fn learn(&mut self, member_id: u32, raw: &str) -> (r: Result<(), AddMemberWordsError>)
        requires
            old(self).wf(),
        ensures
            final(self).wf(),
            final(self).servers@ == old(self).servers@,
            final(self).users@ == old(self).users@,
            final(self).members@ == old(self).members@,
            final(self).tracked_members@ == old(self).tracked_members@,
            final(self).channels@ == old(self).channels@,
            final(self).tracked_channels@ == old(self).tracked_channels@,
            final(self).next_member_id == old(self).next_member_id,
            old(self).words@.len() <= final(self).words@.len(),
            forall|k: int|
                0 <= k < old(self).words@.len() ==> final(self).words@[k] == old(self).words@[k],
            crate::textprocessing::words_of(crate::markov::normalize_spec(raw@)).len() < 2 ==> r
                is Ok && final(self).words@ == old(self).words@ && final(self).member_words@ == old(
                self,
            ).member_words@ && final(self).next_word_id == old(self).next_word_id,
            r is Ok <==> crate::textprocessing::words_of(
                crate::markov::normalize_spec(raw@),
            ).len() < 2 || (old(self).next_word_id + model::missing_count(
                old(self).words@,
                crate::textprocessing::words_of(crate::markov::normalize_spec(raw@)),
            ) <= MAX_WORD_ID + 1 && model::total_freq(old(self).member_words@)
                + crate::textprocessing::words_of(crate::markov::normalize_spec(raw@)).len() - 1
                <= u64::MAX),
            r is Err ==> final(self).member_words@ == old(self).member_words@ && (r == Err::<
                (),
                AddMemberWordsError,
            >(AddMemberWordsError::Storage(StorageError::WordIdSpaceExhausted)) || r == Err::<
                (),
                AddMemberWordsError,
            >(AddMemberWordsError::Storage(StorageError::FrequencyOverflow))),
            r is Ok && crate::textprocessing::words_of(
                crate::markov::normalize_spec(raw@),
            ).len() >= 2 ==> final(self).member_words@ == model::ingest_pairs(
                old(self).member_words@,
                member_id,
                model::pair_seq(
                    model::ids_of_texts(
                        final(self).words@,
                        crate::textprocessing::words_of(crate::markov::normalize_spec(raw@)),
                    ),
                ),
            ),
            r is Ok && crate::textprocessing::words_of(
                crate::markov::normalize_spec(raw@),
            ).len() >= 2 ==> forall|t: Seq<char>|
                model::has_word_text(final(self).words@, t) <==> model::has_word_text(
                    old(self).words@,
                    t,
                ) || model::contains_text(
                    crate::textprocessing::words_of(crate::markov::normalize_spec(raw@)),
                    t,
                ),
    {
        let ghost texts = crate::textprocessing::words_of(crate::markov::normalize_spec(raw@));
        let normalized = crate::markov::filter_string_pre_processing(raw);
        let words = crate::textprocessing::split_words(normalized.as_str());
        proof {
            assert(model::texts_of(words@) == texts);
        }
        if words.len() < 2 {
            return Ok(());
        }
        let ghost mwords = words@;
        let r = self.add_member_words(member_id, words);
        proof {
            assert(model::ids_of(self.words@, mwords) =~= model::ids_of_texts(
                self.words@,
                texts,
            )) by {
                assert forall|i: int| 0 <= i < mwords.len() implies model::ids_of(
                    self.words@,
                    mwords,
                )[i] == model::ids_of_texts(self.words@, texts)[i] by {
                    assert(mwords[i]@ == texts[i]);
                }
            }
        }
        r
    }
}

/// A word id under the cap survives the trip through a signed column.
proof fn lemma_id_roundtrip(x: u32)
    requires
        x <= 0x7fff_ffff,
    ensures
        ((x as i32) as u32) == x,
{
    assert(x <= 0x7fff_ffffu32 ==> ((x as i32) as u32) == x) by (bit_vector);
}

} // verus!
