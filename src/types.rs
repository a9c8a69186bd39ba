use vstd::prelude::*;

verus! {

/// Identifier of a group; issued in order from 0, saturating at `u16::MAX`.
pub type DaoId = u16;

/// Identity of a caller or member.
pub type AccountId = u64;

/// Tick counter of the surrounding ledger.
pub type BlockNumber = u64;

/// A 32-byte Keccak-256 digest.
pub type KeccakHash = [u8; 32];

/// 32 bytes of entropy that a member contributes to a selection.
pub type EntropyHash = [u8; 32];

/// Settings fixed when the pallet is set up.
#[derive(Clone, Copy, Debug, PartialEq, Eq, Structural)]
pub struct Config {
    /// Shortest accepted group name, in bytes.
    pub min_name_length: u32,
    /// Longest accepted group name, in bytes.
    pub max_name_length: u32,
    /// Largest number of members a group may have.
    pub max_members_length: u32,
    /// Number of ticks, counted from a round's start, during which the
    /// selection runs on every tick.
    pub dao_number_generator: u8,
}

/// A member's commitment: the entropy it contributes and its masked hash.
#[derive(Clone, Copy, Debug, PartialEq, Eq)]
pub struct Participant {
    pub account: AccountId,
    pub entropy: EntropyHash,
    pub hash: KeccakHash,
}

/// Notifications returned by successful calls.
#[derive(Clone, Debug, PartialEq, Eq)]
pub enum Event {
    DAOCreated { owner: AccountId, id: DaoId, name: Vec<u8> },
    MemberInserted { id: DaoId, member_id: AccountId },
    MemberRemoved { id: DaoId, member_id: AccountId },
    MaskedValueReceived { id: DaoId, member: AccountId },
    ActualValueReceived { id: DaoId, member: AccountId, hash_bytes: KeccakHash, value: u64 },
}

/// Reasons a call is rejected. A rejected call changes nothing.
#[derive(Clone, Copy, Debug, PartialEq, Eq, Structural)]
pub enum Error {
    /// The name is longer than `max_name_length`.
    TooLong,
    /// The name is shorter than `min_name_length`.
    TooShort,
    /// A group with this name already exists.
    DAOExists,
    /// No group has this id.
    DAODoestNotExists,
    /// The caller is not the group's owner.
    InvalidOwner,
    /// The account is not a member of the group.
    MemberDoesNotExists,
    /// The account is already a member of the group.
    MemberAlreadyExists,
    /// The group already has `max_members_length` members.
    MemberLengthReachedMax,
    /// The revealed value does not hash to the claimed hash.
    InvalidHashProvided,
    /// No winning hash has been selected for the group yet.
    NoWinningHash(DaoId),
}

} // verus!
