//! Bitmask permissions, roles and their enforcement. A member's effective
//! permissions are the union of the roles it holds over a baseline of
//! viewing and sending; the owner holds every permission and outranks all.

use vstd::prelude::*;
use vstd::std_specs::ops::BitOrSpecImpl;
use crate::assoc::{as_map, find_elem, find_key, insert_elem, lookup, remove_elem, remove_key, lemma_lookup_push};
use crate::keys::{bytes32_eq, EndpointId};

verus! {

/// One bit per privileged action.
#[derive(Clone, Copy, Debug, PartialEq, Eq, Structural)]
pub struct Perm(pub u64);

/// Every defined permission bit.
pub const ALL_PERM_BITS: u64 = 0x1ff;

/// What every member holds: viewing and sending.
pub const BASELINE_PERM_BITS: u64 = 0x3;

impl Perm {
    pub fn view_channel() -> (p: Perm)
        ensures
            p.0 == 1,
    {
        Perm(1)
    }

    pub fn send_message() -> (p: Perm)
        ensures
            p.0 == 2,
    {
        Perm(2)
    }

    pub fn manage_msgs() -> (p: Perm)
        ensures
            p.0 == 4,
    {
        Perm(4)
    }

    pub fn kick() -> (p: Perm)
        ensures
            p.0 == 8,
    {
        Perm(8)
    }

    pub fn ban() -> (p: Perm)
        ensures
            p.0 == 16,
    {
        Perm(16)
    }

    pub fn manage_chans() -> (p: Perm)
        ensures
            p.0 == 32,
    {
        Perm(32)
    }

    pub fn manage_roles() -> (p: Perm)
        ensures
            p.0 == 64,
    {
        Perm(64)
    }

    pub fn admin() -> (p: Perm)
        ensures
            p.0 == 128,
    {
        Perm(128)
    }

    pub fn invite() -> (p: Perm)
        ensures
            p.0 == 256,
    {
        Perm(256)
    }

    pub fn empty() -> (p: Perm)
        ensures
            p.0 == 0,
    {
        Perm(0)
    }

    pub fn all() -> (p: Perm)
        ensures
            p.0 == ALL_PERM_BITS,
    {
        Perm(ALL_PERM_BITS)
    }

    pub fn bits(&self) -> (b: u64)
        ensures
            b == self.0,
    {
        self.0
    }

    pub fn from_bits_retain(bits: u64) -> (p: Perm)
        ensures
            p.0 == bits,
    {
        Perm(bits)
    }

    /// Keeps only the defined bits.
    pub fn from_bits_truncate(bits: u64) -> (p: Perm)
        ensures
            p.0 == bits & ALL_PERM_BITS,
    {
        Perm(bits & ALL_PERM_BITS)
    }

    /// Whether every bit of `other` is set here.
    pub fn contains(&self, other: Perm) -> (r: bool)
        ensures
            r == (self.0 & other.0 == other.0),
    {
        self.0 & other.0 == other.0
    }

    pub fn union(self, other: Perm) -> (p: Perm)
        ensures
            p.0 == self.0 | other.0,
    {
        Perm(self.0 | other.0)
    }
}

impl core::ops::BitOr for Perm {
    type Output = Perm;

    fn bitor(self, rhs: Perm) -> (p: Perm) {
        Perm(self.0 | rhs.0)
    }
}

impl BitOrSpecImpl for Perm {
    open spec fn obeys_bitor_spec() -> bool {
        true
    }

    open spec fn bitor_req(self, rhs: Perm) -> bool {
        true
    }

    open spec fn bitor_spec(self, rhs: Perm) -> Perm {
        Perm(self.0 | rhs.0)
    }
}

/// A named bundle of permissions; `position` ranks roles, higher above lower.
#[derive(Debug)]
pub struct Role {
    pub name: String,
    pub color: (u8, u8, u8),
    pub perms: Perm,
    pub position: u16,
}

impl Clone for Role {
    fn clone(&self) -> (r: Role)
        ensures
            r.name@ == self.name@,
            r.color == self.color,
            r.perms == self.perms,
            r.position == self.position,
    {
        Role { name: self.name.clone(), color: self.color, perms: self.perms, position: self.position }
    }
}

/// Why a moderation request or a join was refused.
#[derive(Clone, Copy, Debug, PartialEq, Eq, Structural)]
pub enum PermError {
    /// The actor lacks the permission the action needs.
    NotAllowed,
    /// A ban of an equal or higher rank.
    BanRank,
    /// A kick of an equal or higher rank.
    KickRank,
    /// An invitation for a banned bird.
    TargetBanned,
    /// A banned bird at the door.
    Banned,
    /// A stranger at the door.
    NotInvited,
}

impl PermError {
    pub fn message(&self) -> (m: &'static str)
        ensures
            *self is NotAllowed ==> m@ == "not allowed"@,
            *self is BanRank ==> m@ == "can't ban equal/higher rank"@,
            *self is KickRank ==> m@ == "can't kick equal/higher rank"@,
            *self is TargetBanned ==> m@ == "that bird is banned"@,
            *self is Banned ==> m@ == "banned"@,
            *self is NotInvited ==> m@ == "not invited"@,
    {
        match self {
            PermError::NotAllowed => "not allowed",
            PermError::BanRank => "can't ban equal/higher rank",
            PermError::KickRank => "can't kick equal/higher rank",
            PermError::TargetBanned => "that bird is banned",
            PermError::Banned => "banned",
            PermError::NotInvited => "not invited",
        }
    }
}

/// Membership and moderation state of a roost.
#[derive(Clone, Debug)]
pub struct PermState {
    pub roles: Vec<Role>,
    /// Member → indices into `roles`; a member stands for its first entry.
    pub members: Vec<(EndpointId, Vec<usize>)>,
    pub owner: Option<EndpointId>,
    pub bans: Vec<EndpointId>,
    /// Birds approved by an invite but not yet admitted on first join.
    pub invited: Vec<EndpointId>,
    /// Bumped on every ban, so that secrets cached by a banned bird can be
    /// replaced.
    pub key_epoch: u64,
}

/// The permission bits of role `i`; an index with no role adds nothing.
pub open spec fn role_bits(roles: Seq<Role>, i: usize) -> u64 {
    if i < roles.len() {
        roles[i as int].perms.0
    } else {
        0
    }
}

/// The baseline joined with the bits of every held role.
pub open spec fn held_bits(roles: Seq<Role>, held: Seq<usize>) -> u64
    decreases held.len(),
{
    if held.len() == 0 {
        BASELINE_PERM_BITS
    } else {
        held_bits(roles, held.drop_last()) | role_bits(roles, held.last())
    }
}

/// The position of role `i`; an index with no role counts as zero.
pub open spec fn role_position(roles: Seq<Role>, i: usize) -> u16 {
    if i < roles.len() {
        roles[i as int].position
    } else {
        0
    }
}

/// The highest position among the held roles, zero for none.
pub open spec fn held_rank(roles: Seq<Role>, held: Seq<usize>) -> u16
    decreases held.len(),
{
    if held.len() == 0 {
        0
    } else {
        let r = held_rank(roles, held.drop_last());
        let p = role_position(roles, held.last());
        if r >= p { r } else { p }
    }
}

/// The rank of held roles is their highest position: at least the position
/// of every held role, and the position of one of them (zero for none).
pub proof fn lemma_rank_is_highest_held(roles: Seq<Role>, held: Seq<usize>)
    ensures
        forall|k: int| 0 <= k < held.len() && (held[k] as int) < roles.len()
            ==> held_rank(roles, held) >= #[trigger] roles[held[k] as int].position,
        held_rank(roles, held) == 0 || exists|k: int| 0 <= k < held.len() && (held[k] as int) < roles.len()
            && held_rank(roles, held) == #[trigger] roles[held[k] as int].position,
    decreases held.len(),
{
    if held.len() > 0 {
        let t = held.drop_last();
        lemma_rank_is_highest_held(roles, t);
        assert forall|k: int| 0 <= k < held.len() && (held[k] as int) < roles.len()
            implies held_rank(roles, held) >= #[trigger] roles[held[k] as int].position by {
            if k < t.len() {
                assert(held[k] == t[k]);
            }
        }
        if held_rank(roles, t) != 0 && held_rank(roles, held) == held_rank(roles, t) {
            let k = choose|k: int| 0 <= k < t.len() && (t[k] as int) < roles.len() && held_rank(roles, t) == #[trigger] roles[t[k] as int].position;
            assert(held[k] == t[k]);
        }
        if held_rank(roles, held) != held_rank(roles, t) && (held.last() as int) < roles.len() {
            assert(held[held.len() - 1] == held.last());
        }
    }
}

pub proof fn lemma_held_bits_baseline(roles: Seq<Role>, held: Seq<usize>)
    ensures
        held_bits(roles, held) & BASELINE_PERM_BITS == BASELINE_PERM_BITS,
    decreases held.len(),
{
    if held.len() > 0 {
        lemma_held_bits_baseline(roles, held.drop_last());
        let a = held_bits(roles, held.drop_last());
        let b = role_bits(roles, held.last());
        assert((a & 3u64) == 3u64 ==> ((a | b) & 3u64) == 3u64) by (bit_vector);
    } else {
        assert(3u64 & 3u64 == 3u64) by (bit_vector);
    }
}

impl PermState {
    pub open spec fn is_owner_spec(self, who: EndpointId) -> bool {
        self.owner == Some(who)
    }

    pub open spec fn roles_of(self, who: EndpointId) -> Option<Vec<usize>> {
        lookup(self.members@, who)
    }

    pub open spec fn effective_bits(self, who: EndpointId) -> u64 {
        if self.is_owner_spec(who) {
            ALL_PERM_BITS
        } else {
            match self.roles_of(who) {
                Some(held) => held_bits(self.roles@, held@),
                None => BASELINE_PERM_BITS,
            }
        }
    }

    pub open spec fn rank_spec(self, who: EndpointId) -> u16 {
        if self.is_owner_spec(who) {
            u16::MAX
        } else {
            match self.roles_of(who) {
                Some(held) => held_rank(self.roles@, held@),
                None => 0,
            }
        }
    }

    /// `who` holds every bit of `perm`.
    pub open spec fn may(self, who: EndpointId, perm: u64) -> bool {
        self.effective_bits(who) & perm == perm
    }

    pub open spec fn outranks_spec(self, a: EndpointId, b: EndpointId) -> bool {
        self.rank_spec(a) > self.rank_spec(b)
    }

    pub open spec fn is_member_spec(self, who: EndpointId) -> bool {
        self.is_owner_spec(who) || self.roles_of(who) is Some
    }

    pub open spec fn is_banned(self, who: EndpointId) -> bool {
        self.bans@.contains(who)
    }

    pub open spec fn is_invited(self, who: EndpointId) -> bool {
        self.invited@.contains(who)
    }

    pub open spec fn is_active_spec(self, who: EndpointId) -> bool {
        self.is_member_spec(who) && !self.is_banned(who)
    }

    fn is_owner(&self, who: &EndpointId) -> (r: bool)
        ensures
            r == self.is_owner_spec(*who),
    {
        match &self.owner {
            Some(o) => {
                let eq = bytes32_eq(&o.0, &who.0);
                proof {
                    if eq {
                        assert(o.0 =~= who.0);
                    } else if *o == *who {
                        assert(o.0@ == who.0@);
                    }
                }
                eq
            },
            None => false,
        }
    }

    /// Effective permissions: the baseline joined with every held role;
    /// the owner holds all.
    pub fn effective(&self, who: &EndpointId) -> (p: Perm)
        ensures
            p.0 == self.effective_bits(*who),
            p.0 & BASELINE_PERM_BITS == BASELINE_PERM_BITS,
            self.is_owner_spec(*who) ==> p.0 == ALL_PERM_BITS,
    {
        if self.is_owner(who) {
            assert(ALL_PERM_BITS & BASELINE_PERM_BITS == BASELINE_PERM_BITS) by (bit_vector);
            return Perm::all();
        }
        match find_key(&self.members, who) {
            None => {
                assert(BASELINE_PERM_BITS & BASELINE_PERM_BITS == BASELINE_PERM_BITS) by (bit_vector);
                Perm(BASELINE_PERM_BITS)
            },
            Some(k) => {
                let held = &self.members[k].1;
                let mut acc: u64 = BASELINE_PERM_BITS;
                let mut j: usize = 0;
                while j < held.len()
                    invariant
                        0 <= j <= held@.len(),
                        acc == held_bits(self.roles@, held@.take(j as int)),
                    decreases held.len() - j,
                {
                    let i = held[j];
                    if i < self.roles.len() {
                        acc = acc | self.roles[i].perms.0;
                    } else {
                        assert(acc | 0u64 == acc) by (bit_vector);
                    }
                    assert(held@.take(j + 1).drop_last() =~= held@.take(j as int));
                    j += 1;
                }
                assert(held@.take(held@.len() as int) =~= held@);
                proof {
                    lemma_held_bits_baseline(self.roles@, held@);
                }
                Perm(acc)
            },
        }
    }

    /// The highest held role position; the owner outranks all.
    pub fn rank(&self, who: &EndpointId) -> (r: u16)
        ensures
            r == self.rank_spec(*who),
    {
        if self.is_owner(who) {
            return u16::MAX;
        }
        match find_key(&self.members, who) {
            None => 0,
            Some(k) => {
                let held = &self.members[k].1;
                let mut best: u16 = 0;
                let mut j: usize = 0;
                while j < held.len()
                    invariant
                        0 <= j <= held@.len(),
                        best == held_rank(self.roles@, held@.take(j as int)),
                    decreases held.len() - j,
                {
                    let i = held[j];
                    if i < self.roles.len() && self.roles[i].position > best {
                        best = self.roles[i].position;
                    }
                    assert(held@.take(j + 1).drop_last() =~= held@.take(j as int));
                    j += 1;
                }
                assert(held@.take(held@.len() as int) =~= held@);
                best
            },
        }
    }

    /// Whether `a` outranks `b`.
    pub fn outranks(&self, a: &EndpointId, b: &EndpointId) -> (r: bool)
        ensures
            r == self.outranks_spec(*a, *b),
    {
        self.rank(a) > self.rank(b)
    }

    /// Whether `who` is the owner or holds a member entry.
    pub fn is_member(&self, who: &EndpointId) -> (r: bool)
        ensures
            r == self.is_member_spec(*who),
    {
        self.is_owner(who) || find_key(&self.members, who).is_some()
    }

    /// Whether `who` is a member and not banned.
    pub fn is_active_member(&self, who: &EndpointId) -> (r: bool)
        ensures
            r == self.is_active_spec(*who),
    {
        self.is_member(who) && find_elem(&self.bans, who).is_none()
    }
}


pub const PERM_MANAGE_MSGS: u64 = 4;
pub const PERM_KICK: u64 = 8;
pub const PERM_BAN: u64 = 16;
pub const PERM_INVITE: u64 = 256;

impl PermState {
    pub open spec fn ban_result(self, from: EndpointId, target: EndpointId) -> Result<(), PermError> {
        if !self.may(from, PERM_BAN) {
            Err(PermError::NotAllowed)
        } else if !self.outranks_spec(from, target) {
            Err(PermError::BanRank)
        } else {
            Ok(())
        }
    }

    /// `next` is this state with `target` banned: recorded among the bans,
    /// dropped from the members, and the key epoch bumped.
    pub open spec fn banned_into(self, next: PermState, target: EndpointId) -> bool {
        &&& next.roles == self.roles
        &&& next.owner == self.owner
        &&& next.invited == self.invited
        &&& forall|q: EndpointId| #[trigger] next.roles_of(q) == if q == target { None } else { self.roles_of(q) }
        &&& forall|x: EndpointId| #[trigger] next.bans@.contains(x) <==> (self.bans@.contains(x) || x == target)
        &&& next.key_epoch == self.key_epoch + 1
    }

    pub open spec fn delete_message_result(self, from: EndpointId) -> Result<(), PermError> {
        if self.may(from, PERM_MANAGE_MSGS) {
            Ok(())
        } else {
            Err(PermError::NotAllowed)
        }
    }

    pub open spec fn kick_result(self, from: EndpointId, target: EndpointId) -> Result<(), PermError> {
        if !self.may(from, PERM_KICK) {
            Err(PermError::NotAllowed)
        } else if !self.outranks_spec(from, target) {
            Err(PermError::KickRank)
        } else {
            Ok(())
        }
    }

    /// `next` is this state with `target` dropped from the members and from
    /// the pending invitations.
    pub open spec fn kicked_into(self, next: PermState, target: EndpointId) -> bool {
        &&& next.roles == self.roles
        &&& next.owner == self.owner
        &&& next.bans == self.bans
        &&& next.key_epoch == self.key_epoch
        &&& forall|q: EndpointId| #[trigger] next.roles_of(q) == if q == target { None } else { self.roles_of(q) }
        &&& forall|x: EndpointId| #[trigger] next.invited@.contains(x) <==> (self.invited@.contains(x) && x != target)
    }

    pub open spec fn invite_result(self, from: EndpointId, target: EndpointId) -> Result<(), PermError> {
        if !self.may(from, PERM_INVITE) {
            Err(PermError::NotAllowed)
        } else if self.is_banned(target) {
            Err(PermError::TargetBanned)
        } else {
            Ok(())
        }
    }

    /// `next` is this state with `target` added to the pending invitations.
    pub open spec fn invited_into(self, next: PermState, target: EndpointId) -> bool {
        &&& next.roles == self.roles
        &&& next.owner == self.owner
        &&& next.bans == self.bans
        &&& next.members == self.members
        &&& next.key_epoch == self.key_epoch
        &&& forall|x: EndpointId| #[trigger] next.invited@.contains(x) <==> (self.invited@.contains(x) || x == target)
    }

    pub open spec fn join_result(self, who: EndpointId) -> Result<(), PermError> {
        if self.is_banned(who) {
            Err(PermError::Banned)
        } else if self.is_member_spec(who) {
            Ok(())
        } else if !self.is_invited(who) {
            Err(PermError::NotInvited)
        } else {
            Ok(())
        }
    }

    /// `next` is this state with the invited `who` admitted as a member with
    /// no roles and its invitation used up.
    pub open spec fn admitted_into(self, next: PermState, who: EndpointId) -> bool {
        &&& next.roles == self.roles
        &&& next.owner == self.owner
        &&& next.bans == self.bans
        &&& next.key_epoch == self.key_epoch
        &&& forall|q: EndpointId| q != who ==> #[trigger] next.roles_of(q) == self.roles_of(q)
        &&& next.roles_of(who) matches Some(held) && held@.len() == 0
        &&& forall|x: EndpointId| #[trigger] next.invited@.contains(x) <==> (self.invited@.contains(x) && x != who)
    }

    /// Bans `target`, provided `from` holds `BAN` and outranks it: records
    /// the ban, drops the target from the members and bumps the key epoch.
    pub fn handle_ban(&mut self, from: &EndpointId, target: &EndpointId) -> (r: Result<(), PermError>)
        requires
            old(self).key_epoch < u64::MAX,
        ensures
            r == old(self).ban_result(*from, *target),
            r is Err ==> *final(self) == *old(self),
            r is Ok ==> old(self).banned_into(*final(self), *target),
    {
        if !self.effective(from).contains(Perm::ban()) {
            return Err(PermError::NotAllowed);
        }
        if !self.outranks(from, target) {
            return Err(PermError::BanRank);
        }
        insert_elem(&mut self.bans, *target);
        remove_key(&mut self.members, target);
        self.key_epoch = self.key_epoch + 1;
        Ok(())
    }

    /// Allows a message deletion to `from` when it holds `MANAGE_MSGS`.
    pub fn handle_delete_message(&self, from: &EndpointId) -> (r: Result<(), PermError>)
        ensures
            r == self.delete_message_result(*from),
    {
        if !self.effective(from).contains(Perm::manage_msgs()) {
            return Err(PermError::NotAllowed);
        }
        Ok(())
    }

    /// Kicks `target`, provided `from` holds `KICK` and outranks it: drops
    /// the target from the members and from the pending invitations.
    pub fn handle_kick(&mut self, from: &EndpointId, target: &EndpointId) -> (r: Result<(), PermError>)
        ensures
            r == old(self).kick_result(*from, *target),
            r is Err ==> *final(self) == *old(self),
            r is Ok ==> old(self).kicked_into(*final(self), *target),
    {
        if !self.effective(from).contains(Perm::kick()) {
            return Err(PermError::NotAllowed);
        }
        if !self.outranks(from, target) {
            return Err(PermError::KickRank);
        }
        remove_key(&mut self.members, target);
        remove_elem(&mut self.invited, target);
        Ok(())
    }

    /// Invites `target`, provided `from` holds `INVITE` and the target is
    /// not banned.
    pub fn handle_invite(&mut self, from: &EndpointId, target: EndpointId) -> (r: Result<(), PermError>)
        ensures
            r == old(self).invite_result(*from, target),
            r is Err ==> *final(self) == *old(self),
            r is Ok ==> old(self).invited_into(*final(self), target),
    {
        if !self.effective(from).contains(Perm::invite()) {
            return Err(PermError::NotAllowed);
        }
        if find_elem(&self.bans, &target).is_some() {
            return Err(PermError::TargetBanned);
        }
        insert_elem(&mut self.invited, target);
        Ok(())
    }

    /// The door: banned birds are refused, members pass unchanged, and an
    /// invited bird becomes a member with no roles on its first join.
    pub fn handle_join(&mut self, who: &EndpointId) -> (r: Result<(), PermError>)
        ensures
            r == old(self).join_result(*who),
            r is Err ==> *final(self) == *old(self),
            r is Ok && old(self).is_member_spec(*who) ==> *final(self) == *old(self),
            r is Ok && !old(self).is_member_spec(*who) ==> old(self).admitted_into(*final(self), *who),
    {
        if find_elem(&self.bans, who).is_some() {
            return Err(PermError::Banned);
        }
        if self.is_member(who) {
            return Ok(());
        }
        if find_elem(&self.invited, who).is_none() {
            return Err(PermError::NotInvited);
        }
        remove_elem(&mut self.invited, who);
        let ghost before = self.members@;
        self.members.push((*who, Vec::new()));
        proof {
            assert forall|q: EndpointId| #[trigger] lookup(self.members@, q) == (if q == *who {
                Some(self.members@.last().1)
            } else {
                lookup(before, q)
            }) by {
                lemma_lookup_push(before, *who, self.members@.last().1, q);
            }
        }
        Ok(())
    }
}

impl Default for PermState {
    fn default() -> (s: PermState)
        ensures
            s.roles@.len() == 0,
            s.members@.len() == 0,
            s.owner is None,
            s.bans@.len() == 0,
            s.invited@.len() == 0,
            s.key_epoch == 0,
    {
        PermState {
            roles: Vec::new(),
            members: Vec::new(),
            owner: None,
            bans: Vec::new(),
            invited: Vec::new(),
            key_epoch: 0,
        }
    }
}

/// A successful ban leaves the target no active member, and its next join
/// is refused.
/// A member that is not the owner ranks at least as high as every role it
/// holds, and exactly as high as one of them (zero when it holds none).
pub proof fn lemma_member_rank_is_highest_role(s: PermState, who: EndpointId)
    requires
        !s.is_owner_spec(who),
        s.roles_of(who) is Some,
    ensures
        forall|k: int| 0 <= k < s.roles_of(who)->Some_0@.len() && (s.roles_of(who)->Some_0@[k] as int) < s.roles@.len()
            ==> s.rank_spec(who) >= #[trigger] s.roles@[s.roles_of(who)->Some_0@[k] as int].position,
        s.rank_spec(who) == 0 || exists|k: int| 0 <= k < s.roles_of(who)->Some_0@.len()
            && (s.roles_of(who)->Some_0@[k] as int) < s.roles@.len()
            && s.rank_spec(who) == #[trigger] s.roles@[s.roles_of(who)->Some_0@[k] as int].position,
{
    lemma_rank_is_highest_held(s.roles@, s.roles_of(who)->Some_0@);
}

pub proof fn lemma_banned_bird_is_shut_out(before: PermState, after: PermState, target: EndpointId)
    requires
        before.banned_into(after, target),
    ensures
        !after.is_active_spec(target),
        after.join_result(target) == Err::<(), PermError>(PermError::Banned),
{
    assert(after.bans@.contains(target));
}

/// A successful kick leaves the target no member: a kick needs a higher
/// rank than the target's, and nobody outranks the owner.
pub proof fn lemma_kicked_bird_is_no_member(before: PermState, after: PermState, from: EndpointId, target: EndpointId)
    requires
        before.kick_result(from, target) is Ok,
        before.kicked_into(after, target),
    ensures
        !after.is_member_spec(target),
{
    assert(after.roles_of(target) is None);
}

/// An invited bird that is not banned is admitted, and is a member after.
pub proof fn lemma_invited_bird_is_admitted(before: PermState, after: PermState, who: EndpointId)
    requires
        before.is_invited(who),
        !before.is_banned(who),
        !before.is_member_spec(who),
        before.admitted_into(after, who),
    ensures
        before.join_result(who) is Ok,
        after.is_member_spec(who),
        !after.is_invited(who),
{
}

} // verus!
