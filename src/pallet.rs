use vstd::bytes::{spec_u64_to_le_bytes, u64_to_le_bytes};
use vstd::prelude::*;

use crate::hashing::{keccak_256, keccak_of};
use crate::selector::{by_account, select_winner, upsert, upsert_participant, winner_of};

use crate::types::{
    AccountId, BlockNumber, Config, DaoId, EntropyHash, Error, Event, KeccakHash, Participant,
};

verus! {

/// The largest group id; once it has been issued, later groups reuse it.
pub const MAX_DAO_ID: u16 = 65535;

/// What is recorded for one group id.
pub struct DaoView {
    pub owner: AccountId,
    pub members: Seq<AccountId>,
    pub round_start: Option<BlockNumber>,
    pub participants: Seq<Participant>,
    pub winning_hash: Option<KeccakHash>,
}

struct Dao {
    owner: AccountId,
    members: Vec<AccountId>,
    round_start: Option<BlockNumber>,
    participants: Vec<Participant>,
    winning_hash: Option<KeccakHash>,
}

impl Dao {
    spec fn view(&self) -> DaoView {
        DaoView {
            owner: self.owner,
            members: self.members@,
            round_start: self.round_start,
            participants: self.participants@,
            winning_hash: self.winning_hash,
        }
    }
}

/// The id that the next group gets: the number of groups created so far,
/// saturating at `MAX_DAO_ID`.
pub open spec fn next_id_for(created: nat) -> DaoId {
    if created < MAX_DAO_ID as nat {
        created as DaoId
    } else {
        MAX_DAO_ID
    }
}

/// The number of distinct ids issued after `created` groups.
pub open spec fn ids_for(created: nat) -> nat {
    if created <= MAX_DAO_ID as nat {
        created
    } else {
        MAX_DAO_ID as nat + 1
    }
}

/// Whether the selection runs for a group at tick `n`: its round has started
/// at `s` and `n < s + round_length`.
pub open spec fn round_open(d: DaoView, n: BlockNumber, round_length: u8) -> bool {
    match d.round_start {
        Some(s) => (n as int) < s as int + round_length as int,
        None => false,
    }
}

/// A group after a selection with `seed`; a group without commitments keeps
/// its winning hash.
pub open spec fn after_selection(d: DaoView, seed: Seq<u8>) -> DaoView {
    match winner_of(seed, d.participants) {
        Some(h) => DaoView { winning_hash: Some(h), ..d },
        None => d,
    }
}

/// Whether two byte vectors hold the same bytes.
fn bytes_eq(a: &Vec<u8>, b: &Vec<u8>) -> (r: bool)
    ensures
        r == (a@ == b@),
{
    if a.len() != b.len() {
        return false;
    }
    let mut i: usize = 0;
    while i < a.len()
        invariant
            i <= a@.len(),
            a@.len() == b@.len(),
            forall|j: int| 0 <= j < i ==> a@[j] == b@[j],
        decreases a@.len() - i,
    {
        if a[i] != b[i] {
            return false;
        }
        i = i + 1;
    }
    assert(a@ =~= b@);
    true
}

/// Whether two 32-byte values are equal.
fn bytes32_eq(a: &[u8; 32], b: &[u8; 32]) -> (r: bool)
    ensures
        r == (a@ == b@),
{
    let mut i: usize = 0;
    while i < 32
        invariant
            i <= 32,
            a@.len() == 32,
            b@.len() == 32,
            forall|j: int| 0 <= j < i ==> a@[j] == b@[j],
        decreases 32 - i,
    {
        if a[i] != b[i] {
            return false;
        }
        i = i + 1;
    }
    assert(a@ =~= b@);
    true
}

/// The position of `a` in `v`, if it occurs.
fn position_of(v: &Vec<AccountId>, a: AccountId) -> (r: Option<usize>)
    ensures
        r matches Some(k) ==> k < v@.len() && v@[k as int] == a,
        r is None ==> !v@.contains(a),
{
    let mut i: usize = 0;
    while i < v.len()
        invariant
            i <= v@.len(),
            forall|j: int| 0 <= j < i ==> v@[j] != a,
        decreases v@.len() - i,
    {
        if v[i] == a {
            return Some(i);
        }
        i = i + 1;
    }
    None
}

/// The store entry of account `a`, if it has one.
fn find_participant(v: &Vec<Participant>, a: AccountId) -> (r: Option<Participant>)
    ensures
        r matches Some(p) ==> v@.contains(p) && p.account == a,
        r is None ==> forall|j: int| 0 <= j < v@.len() ==> v@[j].account != a,
{
    let mut i: usize = 0;
    while i < v.len()
        invariant
            i <= v@.len(),
            forall|j: int| 0 <= j < i ==> v@[j].account != a,
        decreases v@.len() - i,
    {
        if v[i].account == a {
            return Some(v[i]);
        }
        i = i + 1;
    }
    None
}

/// The state of all groups: the registry of names, and per id the owner,
/// members, commitments, round start and winning hash.
pub struct Pallet {
    config: Config,
    names: Vec<Vec<u8>>,
    daos: Vec<Dao>,
}

impl Pallet {
    /// The settings the pallet was set up with.
    pub closed spec fn cfg(&self) -> Config {
        self.config
    }

    /// Every name registered, in the order of registration.
    pub closed spec fn names(&self) -> Seq<Seq<u8>> {
        self.names@.map_values(|n: Vec<u8>| n@)
    }

    /// What is recorded for each issued id, indexed by id.
    pub closed spec fn daos(&self) -> Seq<DaoView> {
        self.daos@.map_values(|d: Dao| d.view())
    }

    /// The state is consistent: one record per issued id, names distinct and
    /// of accepted length,
    /// members distinct and at most `max_members_length` of them, and
    /// commitments ascending by account.
    pub open spec fn wf(&self) -> bool {
        &&& self.daos().len() == ids_for(self.names().len())
        &&& self.names().no_duplicates()
        &&& forall|k: int|
            0 <= k < self.names().len() ==> self.cfg().min_name_length <= (#[trigger] self.names()[k]).len()
                <= self.cfg().max_name_length
        &&& forall|id: int|
            0 <= id < self.daos().len() ==> {
                &&& (#[trigger] self.daos()[id]).members.no_duplicates()
                &&& self.daos()[id].members.len() <= self.cfg().max_members_length
                &&& by_account(self.daos()[id].participants)
            }
    }

    /// The id that the next created group gets.
    pub open spec fn next_id(&self) -> DaoId {
        next_id_for(self.names().len())
    }

    /// The name that id `id` currently carries: the last name registered
    /// under it.
    pub open spec fn name_of(&self, id: DaoId) -> Seq<u8> {
        if id < MAX_DAO_ID {
            self.names()[id as int]
        } else {
            self.names().last()
        }
    }

    pub open spec fn exists_spec(&self, id: DaoId) -> bool {
        (id as int) < self.daos().len()
    }

    pub open spec fn is_member_spec(&self, id: DaoId, who: AccountId) -> bool {
        self.exists_spec(id) && self.daos()[id as int].members.contains(who)
    }

    /// Why creating a group named `name` is rejected, if it is.
    pub open spec fn create_error(&self, name: Seq<u8>) -> Option<Error> {
        if name.len() > self.cfg().max_name_length {
            Some(Error::TooLong)
        } else if name.len() < self.cfg().min_name_length {
            Some(Error::TooShort)
        } else if self.names().contains(name) {
            Some(Error::DAOExists)
        } else {
            None
        }
    }

    /// The checks shared by adding and removing a member.
    pub open spec fn owner_error(&self, who: AccountId, id: DaoId) -> Option<Error> {
        if !self.exists_spec(id) {
            Some(Error::DAODoestNotExists)
        } else if self.daos()[id as int].owner != who {
            Some(Error::InvalidOwner)
        } else {
            None
        }
    }

    /// Why adding `member` to group `id` on behalf of `who` is rejected, if it is.
    pub open spec fn add_error(&self, who: AccountId, id: DaoId, member: AccountId) -> Option<Error> {
        if self.owner_error(who, id) is Some {
            self.owner_error(who, id)
        } else if self.daos()[id as int].members.contains(member) {
            Some(Error::MemberAlreadyExists)
        } else if self.daos()[id as int].members.len() >= self.cfg().max_members_length {
            Some(Error::MemberLengthReachedMax)
        } else {
            None
        }
    }

    /// Why removing `member` from group `id` on behalf of `who` is rejected, if it is.
    pub open spec fn remove_error(&self, who: AccountId, id: DaoId, member: AccountId) -> Option<Error> {
        if self.owner_error(who, id) is Some {
            self.owner_error(who, id)
        } else if !self.daos()[id as int].members.contains(member) {
            Some(Error::MemberDoesNotExists)
        } else {
            None
        }
    }

    /// What a reveal returns, given the digest of the revealed value.
    pub open spec fn reveal_outcome(
        &self,
        who: AccountId,
        id: DaoId,
        hash_bytes: KeccakHash,
        value: u64,
        digest: Seq<u8>,
    ) -> Result<Option<Event>, Error> {
        if !self.is_member_spec(id, who) {
            Err(Error::MemberDoesNotExists)
        } else if digest != hash_bytes@ {
            Err(Error::InvalidHashProvided)
        } else {
            match self.daos()[id as int].winning_hash {
                None => Err(Error::NoWinningHash(id)),
                Some(w) => if w@ == digest {
                    Ok(Some(Event::ActualValueReceived { id, member: who, hash_bytes, value }))
                } else {
                    Ok(None)
                },
            }
        }
    }

    /// The position of `name` in the registry, if it is registered.
    fn find_name(&self, name: &Vec<u8>) -> (r: Option<usize>)
        ensures
            r matches Some(k) ==> k < self.names().len() && self.names()[k as int] == name@,
            r is None ==> !self.names().contains(name@),
    {
        let mut i: usize = 0;
        while i < self.names.len()
            invariant
                i <= self.names@.len(),
                forall|j: int| 0 <= j < i ==> self.names()[j] != name@,
            decreases self.names@.len() - i,
        {
            if bytes_eq(&self.names[i], name) {
                return Some(i);
            }
            i = i + 1;
        }
        None
    }

    /// Creates a group named `name` owned by `who`, under the next id.
    /// Rejected when the name is too long, too short or already registered.
    pub fn create_dao(&mut self, who: AccountId, name: Vec<u8>) -> (r: Result<Event, Error>)
        requires
            old(self).wf(),
        ensures
            final(self).wf(),
            r is Ok <==> old(self).create_error(name@) is None,
            r matches Err(e) ==> old(self).create_error(name@) == Some(e)
                && *final(self) == *old(self),
            r is Ok ==> {
                &&& r == Ok::<Event, Error>(Event::DAOCreated { owner: who, id: old(self).next_id(), name })
                &&& final(self).cfg() == old(self).cfg()
                &&& final(self).names() == old(self).names().push(name@)
                &&& final(self).daos() == if old(self).daos().len() <= MAX_DAO_ID as int {
                    old(self).daos().push(DaoView {
                        owner: who,
                        members: Seq::empty(),
                        round_start: None,
                        participants: Seq::empty(),
                        winning_hash: None,
                    })
                } else {
                    old(self).daos().update(MAX_DAO_ID as int, DaoView { owner: who, ..old(self).daos()[MAX_DAO_ID as int] })
                }
            },
    {
        if name.len() > self.config.max_name_length as usize {
            return Err(Error::TooLong);
        }
        if name.len() < self.config.min_name_length as usize {
            return Err(Error::TooShort);
        }
        if self.find_name(&name).is_some() {
            return Err(Error::DAOExists);
        }
        let ghost old_self = *self;
        let id: DaoId = if self.names.len() < MAX_DAO_ID as usize {
            self.names.len() as DaoId
        } else {
            MAX_DAO_ID
        };
        let stored = name.clone();
        assert(stored@ =~= name@);
        self.names.push(stored);
        if self.daos.len() <= MAX_DAO_ID as usize {
            self.daos.push(Dao {
                owner: who,
                members: Vec::new(),
                round_start: None,
                participants: Vec::new(),
                winning_hash: None,
            });
            proof {
                let nd = DaoView {
                    owner: who,
                    members: Seq::empty(),
                    round_start: None,
                    participants: Seq::empty(),
                    winning_hash: None,
                };
                assert(self.daos@.last().view().members =~= Seq::<AccountId>::empty());
                assert(self.daos@.last().view().participants =~= Seq::<Participant>::empty());
                assert(self.daos() =~= old_self.daos().push(nd));
            }
        } else {
            self.daos[MAX_DAO_ID as usize].owner = who;
            assert(self.daos() =~= old_self.daos().update(
                MAX_DAO_ID as int,
                DaoView { owner: who, ..old_self.daos()[MAX_DAO_ID as int] },
            ));
        }
        proof {
            assert(self.names() =~= old_self.names().push(name@));
            assert forall|i: int, j: int| 0 <= i < j < self.names().len() implies self.names()[i] != self.names()[j] by {
                if j == self.names().len() - 1 {
                    assert(old_self.names().contains(old_self.names()[i]));
                }
            }
            assert forall|k: int| 0 <= k < self.daos().len() implies {
                &&& (#[trigger] self.daos()[k]).members.no_duplicates()
                &&& self.daos()[k].members.len() <= self.cfg().max_members_length
                &&& by_account(self.daos()[k].participants)
            } by {
                if k < old_self.daos().len() {
                    assert(old_self.daos()[k].members == self.daos()[k].members);
                    assert(old_self.daos()[k].participants == self.daos()[k].participants);
                }
            }
        }
        Ok(Event::DAOCreated { owner: who, id, name })
    }

    proof fn lemma_wf_update(old_self: Pallet, new_self: Pallet, id: int)
        requires
            old_self.wf(),
            0 <= id < old_self.daos().len(),
            new_self.cfg() == old_self.cfg(),
            new_self.names() == old_self.names(),
            new_self.daos() == old_self.daos().update(id, new_self.daos()[id]),
            new_self.daos()[id].members.no_duplicates(),
            new_self.daos()[id].members.len() <= new_self.cfg().max_members_length,
            by_account(new_self.daos()[id].participants),
        ensures
            new_self.wf(),
    {
        assert forall|k: int| 0 <= k < new_self.daos().len() implies {
            &&& (#[trigger] new_self.daos()[k]).members.no_duplicates()
            &&& new_self.daos()[k].members.len() <= new_self.cfg().max_members_length
            &&& by_account(new_self.daos()[k].participants)
        } by {
            if k != id {
                assert(old_self.daos()[k] == new_self.daos()[k]);
            }
        }
    }

    /// Adds `member` to group `id`; only the group's owner may do so.
    pub fn add_member(&mut self, who: AccountId, id: DaoId, member: AccountId) -> (r: Result<Event, Error>)
        requires
            old(self).wf(),
        ensures
            final(self).wf(),
            r == match old(self).add_error(who, id, member) {
                Some(e) => Err(e),
                None => Ok(Event::MemberInserted { id, member_id: member }),
            },
            r is Err ==> *final(self) == *old(self),
            r is Ok ==> {
                &&& final(self).cfg() == old(self).cfg()
                &&& final(self).names() == old(self).names()
                &&& final(self).daos() == old(self).daos().update(
                    id as int,
                    DaoView {
                        members: old(self).daos()[id as int].members.push(member),
                        ..old(self).daos()[id as int]
                    },
                )
            },
    {
        if id as usize >= self.daos.len() {
            return Err(Error::DAODoestNotExists);
        }
        if self.daos[id as usize].owner != who {
            return Err(Error::InvalidOwner);
        }
        if position_of(&self.daos[id as usize].members, member).is_some() {
            return Err(Error::MemberAlreadyExists);
        }
        if self.daos[id as usize].members.len() >= self.config.max_members_length as usize {
            return Err(Error::MemberLengthReachedMax);
        }
        let ghost old_self = *self;
        self.daos[id as usize].members.push(member);
        proof {
            let od = old_self.daos()[id as int];
            assert(self.daos() =~= old_self.daos().update(
                id as int,
                DaoView { members: od.members.push(member), ..od },
            ));
            assert(self.names() =~= old_self.names());
            Pallet::lemma_wf_update(old_self, *self, id as int);
        }
        Ok(Event::MemberInserted { id, member_id: member })
    }

    /// Removes `member` from group `id`; only the group's owner may do so.
    pub fn remove_member(&mut self, who: AccountId, id: DaoId, member: AccountId) -> (r: Result<Event, Error>)
        requires
            old(self).wf(),
        ensures
            final(self).wf(),
            r == match old(self).remove_error(who, id, member) {
                Some(e) => Err(e),
                None => Ok(Event::MemberRemoved { id, member_id: member }),
            },
            r is Err ==> *final(self) == *old(self),
            r is Ok ==> {
                &&& final(self).cfg() == old(self).cfg()
                &&& final(self).names() == old(self).names()
                &&& exists|k: int|
                    0 <= k < old(self).daos()[id as int].members.len()
                        && old(self).daos()[id as int].members[k] == member
                        && final(self).daos() == old(self).daos().update(
                        id as int,
                        DaoView {
                            members: old(self).daos()[id as int].members.remove(k),
                            ..old(self).daos()[id as int]
                        },
                    )
            },
    {
        if id as usize >= self.daos.len() {
            return Err(Error::DAODoestNotExists);
        }
        if self.daos[id as usize].owner != who {
            return Err(Error::InvalidOwner);
        }
        let k = match position_of(&self.daos[id as usize].members, member) {
            Some(k) => k,
            None => {
                return Err(Error::MemberDoesNotExists);
            },
        };
        let ghost old_self = *self;
        self.daos[id as usize].members.remove(k);
        proof {
            let od = old_self.daos()[id as int];
            assert(self.daos@[id as int].members@ =~= od.members.remove(k as int));
            assert(self.daos() =~= old_self.daos().update(
                id as int,
                DaoView { members: od.members.remove(k as int), ..od },
            ));
            assert(self.names() =~= old_self.names());
            let nm = od.members.remove(k as int);
            assert forall|i: int, j: int| 0 <= i < j < nm.len() implies nm[i] != nm[j] by {
                let oi = if i < k { i } else { i + 1 };
                let oj = if j < k { j } else { j + 1 };
                assert(nm[i] == od.members[oi]);
                assert(nm[j] == od.members[oj]);
            }
            Pallet::lemma_wf_update(old_self, *self, id as int);
        }
        Ok(Event::MemberRemoved { id, member_id: member })
    }

    /// Records the commitment of member `who` to group `id`, replacing its
    /// earlier one; the first commitment of a round records tick `now` as the
    /// round's start.
    pub fn submit_masked_value(
        &mut self,
        who: AccountId,
        id: DaoId,
        entropy: EntropyHash,
        hash_bytes: KeccakHash,
        now: BlockNumber,
    ) -> (r: Result<Event, Error>)
        requires
            old(self).wf(),
        ensures
            final(self).wf(),
            r is Ok <==> old(self).is_member_spec(id, who),
            r is Err ==> r == Err::<Event, Error>(Error::MemberDoesNotExists)
                && *final(self) == *old(self),
            r is Ok ==> {
                let od = old(self).daos()[id as int];
                &&& r == Ok::<Event, Error>(Event::MaskedValueReceived { id, member: who })
                &&& final(self).cfg() == old(self).cfg()
                &&& final(self).names() == old(self).names()
                &&& final(self).daos() == old(self).daos().update(
                    id as int,
                    DaoView {
                        participants: upsert(
                            od.participants,
                            Participant { account: who, entropy, hash: hash_bytes },
                        ),
                        round_start: if od.round_start is None {
                            Some(now)
                        } else {
                            od.round_start
                        },
                        ..od
                    },
                )
            },
    {
        if id as usize >= self.daos.len() || position_of(&self.daos[id as usize].members, who).is_none() {
            return Err(Error::MemberDoesNotExists);
        }
        let ghost old_self = *self;
        let p = Participant { account: who, entropy, hash: hash_bytes };
        upsert_participant(&mut self.daos[id as usize].participants, p);
        if self.daos[id as usize].round_start.is_none() {
            self.daos[id as usize].round_start = Some(now);
        }
        proof {
            let od = old_self.daos()[id as int];
            assert(self.daos() =~= old_self.daos().update(
                id as int,
                DaoView {
                    participants: upsert(od.participants, p),
                    round_start: if od.round_start is None {
                        Some(now)
                    } else {
                        od.round_start
                    },
                    ..od
                },
            ));
            assert(self.names() =~= old_self.names());
            Pallet::lemma_wf_update(old_self, *self, id as int);
        }
        Ok(Event::MaskedValueReceived { id, member: who })
    }

    /// Checks a reveal by `who` in group `id` against `digest`, the digest of
    /// the revealed value: the caller must be a member, the digest must equal
    /// `hash_bytes`, and the group must have a winning hash. The reveal is
    /// announced when the digest is the winning hash, and accepted silently
    /// otherwise.
    pub fn reveal_with_digest(
        &self,
        who: AccountId,
        id: DaoId,
        hash_bytes: KeccakHash,
        value: u64,
        digest: &[u8; 32],
    ) -> (r: Result<Option<Event>, Error>)
        requires
            self.wf(),
        ensures
            r == self.reveal_outcome(who, id, hash_bytes, value, digest@),
    {
        if id as usize >= self.daos.len() || position_of(&self.daos[id as usize].members, who).is_none() {
            return Err(Error::MemberDoesNotExists);
        }
        if !bytes32_eq(digest, &hash_bytes) {
            return Err(Error::InvalidHashProvided);
        }
        match self.daos[id as usize].winning_hash {
            None => Err(Error::NoWinningHash(id)),
            Some(w) => {
                if bytes32_eq(&w, digest) {
                    Ok(Some(Event::ActualValueReceived { id, member: who, hash_bytes, value }))
                } else {
                    Ok(None)
                }
            },
        }
    }

    /// Reveals `value` as the pre-image of `hash_bytes`: the Keccak-256 digest
    /// of its 8 little-endian bytes is checked as `reveal_with_digest` says.
    pub fn reveal_value(&self, who: AccountId, id: DaoId, hash_bytes: KeccakHash, value: u64) -> (r:
        Result<Option<Event>, Error>)
        requires
            self.wf(),
        ensures
            r == self.reveal_outcome(
                who,
                id,
                hash_bytes,
                value,
                keccak_of(spec_u64_to_le_bytes(value)),
            ),
    {
        let bytes = u64_to_le_bytes(value);
        let digest = keccak_256(bytes.as_slice());
        self.reveal_with_digest(who, id, hash_bytes, value, &digest)
    }

    /// Runs the selection for group `id` with `seed`: the winning hash
    /// becomes `winner_of(seed, commitments)`; a group without commitments
    /// is left as it is.
    pub fn generate_random_number(&mut self, id: DaoId, seed: &Vec<u8>)
        requires
            old(self).wf(),
            old(self).exists_spec(id),
        ensures
            final(self).wf(),
            final(self).cfg() == old(self).cfg(),
            final(self).names() == old(self).names(),
            final(self).daos() == old(self).daos().update(
                id as int,
                after_selection(old(self).daos()[id as int], seed@),
            ),
    {
        let ghost old_self = *self;
        let chosen = select_winner(seed, &self.daos[id as usize].participants);
        match chosen {
            Some(h) => {
                self.daos[id as usize].winning_hash = Some(h);
            },
            None => {},
        }
        proof {
            let od = old_self.daos()[id as int];
            assert(self.daos() =~= old_self.daos().update(id as int, after_selection(od, seed@)));
            assert(self.names() =~= old_self.names());
            Pallet::lemma_wf_update(old_self, *self, id as int);
        }
    }

    /// The per-tick hook: at tick `n`, in ascending id order, runs the
    /// selection with `seed` for every group whose round is open.
    pub fn on_finalize(&mut self, n: BlockNumber, seed: &Vec<u8>)
        requires
            old(self).wf(),
        ensures
            final(self).wf(),
            final(self).cfg() == old(self).cfg(),
            final(self).names() == old(self).names(),
            final(self).daos().len() == old(self).daos().len(),
            forall|id: int|
                0 <= id < old(self).daos().len() ==> #[trigger] final(self).daos()[id] == if round_open(
                    old(self).daos()[id],
                    n,
                    old(self).cfg().dao_number_generator,
                ) {
                    after_selection(old(self).daos()[id], seed@)
                } else {
                    old(self).daos()[id]
                },
    {
        let ghost old_self = *self;
        let length = self.config.dao_number_generator as u128;
        let mut i: usize = 0;
        while i < self.daos.len()
            invariant
                self.wf(),
                i <= self.daos@.len(),
                self.cfg() == old_self.cfg(),
                self.names() == old_self.names(),
                self.daos().len() == old_self.daos().len(),
                length == old_self.cfg().dao_number_generator,
                forall|id: int|
                    0 <= id < old_self.daos().len() ==> #[trigger] self.daos()[id] == if id < i
                        && round_open(old_self.daos()[id], n, old_self.cfg().dao_number_generator) {
                        after_selection(old_self.daos()[id], seed@)
                    } else {
                        old_self.daos()[id]
                    },
            decreases self.daos@.len() - i,
        {
            let open = match self.daos[i].round_start {
                Some(start) => (n as u128) < start as u128 + length,
                None => false,
            };
            proof {
                assert(self.daos()[i as int] == old_self.daos()[i as int]);
            }
            if open {
                self.generate_random_number(i as DaoId, seed);
            }
            i = i + 1;
        }
    }

    /// The settings the pallet was set up with.
    pub fn config(&self) -> (r: Config)
        ensures
            r == self.cfg(),
    {
        self.config
    }

    /// The number of ids issued so far.
    pub fn dao_count(&self) -> (r: usize)
        ensures
            r == self.daos().len(),
    {
        self.daos.len()
    }

    /// The id of the group named `name`, if there is one.
    pub fn lookup_id(&self, name: &Vec<u8>) -> (r: Option<DaoId>)
        requires
            self.wf(),
        ensures
            r is Some <==> self.names().contains(name@),
            forall|k: int|
                0 <= k < self.names().len() && self.names()[k] == name@ ==> r == Some(
                    next_id_for(k as nat),
                ),
    {
        match self.find_name(name) {
            Some(k) => {
                let id: DaoId = if k < MAX_DAO_ID as usize {
                    k as DaoId
                } else {
                    MAX_DAO_ID
                };
                Some(id)
            },
            None => None,
        }
    }

    /// The name that group `id` carries, if the id has been issued.
    pub fn lookup_name(&self, id: DaoId) -> (r: Option<Vec<u8>>)
        requires
            self.wf(),
        ensures
            r is Some <==> self.exists_spec(id),
            r matches Some(v) ==> v@ == self.name_of(id),
    {
        if id as usize >= self.daos.len() {
            return None;
        }
        let k: usize = if id < MAX_DAO_ID {
            id as usize
        } else {
            self.names.len() - 1
        };
        let v = self.names[k].clone();
        assert(v@ =~= self.names@[k as int]@);
        Some(v)
    }

    /// The owner of group `id`, if the id has been issued.
    pub fn owner_of(&self, id: DaoId) -> (r: Option<AccountId>)
        ensures
            r == if self.exists_spec(id) {
                Some(self.daos()[id as int].owner)
            } else {
                None::<AccountId>
            },
    {
        if id as usize >= self.daos.len() {
            None
        } else {
            Some(self.daos[id as usize].owner)
        }
    }

    /// The members of group `id`, in the order they were recorded; empty for
    /// an id not issued.
    pub fn members(&self, id: DaoId) -> (r: Vec<AccountId>)
        ensures
            r@ == if self.exists_spec(id) {
                self.daos()[id as int].members
            } else {
                Seq::<AccountId>::empty()
            },
    {
        if id as usize >= self.daos.len() {
            Vec::new()
        } else {
            let v = self.daos[id as usize].members.clone();
            assert(v@ =~= self.daos@[id as int].members@);
            v
        }
    }

    /// Whether `who` is a member of group `id`.
    pub fn is_member(&self, id: DaoId, who: AccountId) -> (r: bool)
        ensures
            r == self.is_member_spec(id, who),
    {
        (id as usize) < self.daos.len() && position_of(&self.daos[id as usize].members, who).is_some()
    }

    /// The tick at which the round of group `id` started, if it has.
    pub fn round_start(&self, id: DaoId) -> (r: Option<BlockNumber>)
        ensures
            r == if self.exists_spec(id) {
                self.daos()[id as int].round_start
            } else {
                None::<BlockNumber>
            },
    {
        if id as usize >= self.daos.len() {
            None
        } else {
            self.daos[id as usize].round_start
        }
    }

    /// The winning hash of group `id`, if one has been selected.
    pub fn winning_hash(&self, id: DaoId) -> (r: Option<KeccakHash>)
        ensures
            r == if self.exists_spec(id) {
                self.daos()[id as int].winning_hash
            } else {
                None::<KeccakHash>
            },
    {
        if id as usize >= self.daos.len() {
            None
        } else {
            self.daos[id as usize].winning_hash
        }
    }

    /// The commitment of `who` in group `id`, if it has one.
    pub fn commitment(&self, id: DaoId, who: AccountId) -> (r: Option<Participant>)
        ensures
            r matches Some(p) ==> self.exists_spec(id) && self.daos()[id as int].participants.contains(p)
                && p.account == who,
            r is None ==> !self.exists_spec(id) || forall|j: int|
                0 <= j < self.daos()[id as int].participants.len()
                    ==> self.daos()[id as int].participants[j].account != who,
    {
        if id as usize >= self.daos.len() {
            None
        } else {
            find_participant(&self.daos[id as usize].participants, who)
        }
    }

    /// An empty pallet with the given settings.
    pub fn new(config: Config) -> (r: Pallet)
        ensures
            r.wf(),
            r.cfg() == config,
            r.names() == Seq::<Seq<u8>>::empty(),
            r.daos() == Seq::<DaoView>::empty(),
    {
        let r = Pallet { config, names: Vec::new(), daos: Vec::new() };
        assert(r.names() =~= Seq::<Seq<u8>>::empty());
        assert(r.daos() =~= Seq::<DaoView>::empty());
        r
    }
}

/// A name of accepted length that is not yet registered can always be
/// registered, and while fewer than `MAX_DAO_ID + 1` ids have been issued the
/// new group gets an id that no earlier group had.
pub proof fn lemma_create_fresh_id(p: Pallet, name: Seq<u8>)
    requires
        p.wf(),
        p.cfg().min_name_length <= name.len() <= p.cfg().max_name_length,
        !p.names().contains(name),
        p.daos().len() <= MAX_DAO_ID as int,
    ensures
        p.create_error(name) is None,
        p.next_id() as int == p.daos().len(),
        !(p.next_id() < p.daos().len()),
{
}

/// A registered name cannot be registered again, whoever asks.
pub proof fn lemma_duplicate_name_rejected(p: Pallet, name: Seq<u8>)
    requires
        p.wf(),
        p.names().contains(name),
    ensures
        p.create_error(name) == Some(Error::DAOExists),
{
    let k = choose|k: int| 0 <= k < p.names().len() && p.names()[k] == name;
    assert(p.cfg().min_name_length <= p.names()[k].len() <= p.cfg().max_name_length);
}

/// Of an existing group, only its owner may add or remove members; anyone
/// else is refused with `InvalidOwner`.
pub proof fn lemma_only_owner_changes_members(p: Pallet, who: AccountId, id: DaoId, member: AccountId)
    requires
        p.exists_spec(id),
    ensures
        p.add_error(who, id, member) is None ==> p.daos()[id as int].owner == who,
        p.remove_error(who, id, member) is None ==> p.daos()[id as int].owner == who,
        p.daos()[id as int].owner != who ==> p.add_error(who, id, member) == Some(Error::InvalidOwner)
            && p.remove_error(who, id, member) == Some(Error::InvalidOwner),
{
}

/// No group ever has more than `max_members_length` members, and the owner
/// adding a new member to a full group is refused with
/// `MemberLengthReachedMax`.
pub proof fn lemma_members_bounded(p: Pallet, who: AccountId, id: DaoId, member: AccountId)
    requires
        p.wf(),
    ensures
        forall|i: int| 0 <= i < p.daos().len() ==> (#[trigger] p.daos()[i]).members.len() <= p.cfg().max_members_length,
        p.exists_spec(id) && p.daos()[id as int].owner == who && !p.daos()[id as int].members.contains(member)
            && p.daos()[id as int].members.len() >= p.cfg().max_members_length
            ==> p.add_error(who, id, member) == Some(Error::MemberLengthReachedMax),
{
}

/// A member's reveal whose value does not hash to the claimed hash is refused
/// with `InvalidHashProvided`, and so announces nothing.
pub proof fn lemma_reveal_mismatch_rejected(
    p: Pallet,
    who: AccountId,
    id: DaoId,
    hash_bytes: KeccakHash,
    value: u64,
    digest: Seq<u8>,
)
    requires
        p.is_member_spec(id, who),
        digest != hash_bytes@,
    ensures
        p.reveal_outcome(who, id, hash_bytes, value, digest) == Err::<Option<Event>, Error>(
            Error::InvalidHashProvided,
        ),
{
}

/// A member's reveal of a value that hashes to the claimed hash, in a group
/// with a winning hash, succeeds; it announces the value exactly when the
/// hash is the winning one.
pub proof fn lemma_reveal_announces_winner_only(
    p: Pallet,
    who: AccountId,
    id: DaoId,
    hash_bytes: KeccakHash,
    value: u64,
    digest: Seq<u8>,
)
    requires
        p.is_member_spec(id, who),
        digest == hash_bytes@,
        p.daos()[id as int].winning_hash is Some,
    ensures
        p.reveal_outcome(who, id, hash_bytes, value, digest) is Ok,
        p.reveal_outcome(who, id, hash_bytes, value, digest) == Ok::<Option<Event>, Error>(
            if p.daos()[id as int].winning_hash.unwrap()@ == digest {
                Some(Event::ActualValueReceived { id, member: who, hash_bytes, value })
            } else {
                None
            },
        ),
{
}

} // verus!
