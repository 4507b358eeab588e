use starling::keys::{EndpointId, SecretKey};
use starling::roost::perms::{Perm, PermError, PermState, Role};

fn id(n: u8) -> EndpointId {
    SecretKey::from_bytes(&[n; 32]).public()
}

fn mod_role() -> Role {
    Role {
        name: "mod".into(),
        color: (0, 200, 0),
        perms: Perm::kick() | Perm::ban() | Perm::manage_msgs(),
        position: 10,
    }
}

fn is_listed(state: &PermState, who: &EndpointId) -> bool {
    state.members.iter().any(|(m, _)| m == who)
}

#[test]
fn owner_is_always_admin() {
    let owner = id(1);
    let state = PermState {
        owner: Some(owner),
        ..Default::default()
    };
    assert_eq!(state.effective(&owner), Perm::all());
    assert_eq!(state.rank(&owner), u16::MAX);
}

#[test]
fn member_with_no_roles_gets_baseline() {
    let member = id(2);
    let state = PermState {
        members: vec![(member, vec![])],
        ..Default::default()
    };
    assert_eq!(
        state.effective(&member),
        Perm::view_channel() | Perm::send_message()
    );
}

#[test]
fn effective_perms_or_held_roles() {
    let role = mod_role();
    let member = id(3);
    let state = PermState {
        roles: vec![role],
        members: vec![(member, vec![0])],
        ..Default::default()
    };
    let perms = state.effective(&member);
    assert!(perms.contains(Perm::ban()));
    assert!(perms.contains(Perm::kick()));
    assert!(perms.contains(Perm::view_channel()));
    assert!(perms.contains(Perm::send_message()));
    assert!(!perms.contains(Perm::admin()));
}

#[test]
fn handle_ban_requires_perm_and_rank() {
    let role = mod_role();
    let mod_ = id(4);
    let peer = id(5);
    let equal_mod = id(6);
    let mut state = PermState {
        roles: vec![role],
        members: vec![(mod_, vec![0]), (peer, vec![]), (equal_mod, vec![0])],
        ..Default::default()
    };

    // mod can ban a lower-ranked peer.
    assert!(state.handle_ban(&mod_, &peer).is_ok());
    assert!(state.bans.contains(&peer));
    assert!(
        !is_listed(&state, &peer),
        "banned member must be removed from members"
    );
    assert_eq!(state.key_epoch, 1, "key_epoch must be bumped on ban");

    // mod cannot ban an equal-ranked mod.
    assert!(state.handle_ban(&mod_, &equal_mod).is_err());

    // peer has no BAN perm and cannot ban anyone.
    assert!(state.handle_ban(&peer, &mod_).is_err());
}

#[test]
fn handle_invite_requires_invite_perm_and_refuses_banned() {
    let inviter = id(7);
    let role = Role {
        name: "inviter".into(),
        color: (0, 0, 200),
        perms: Perm::invite(),
        position: 5,
    };
    let target = id(8);
    let banned = id(9);
    let mut state = PermState {
        roles: vec![role],
        members: vec![(inviter, vec![0])],
        bans: vec![banned],
        ..Default::default()
    };

    assert!(state.handle_invite(&inviter, target).is_ok());
    assert!(state.invited.contains(&target));

    // banned birds cannot be invited.
    assert!(state.handle_invite(&inviter, banned).is_err());

    // a bird without INVITE cannot invite.
    let nobody = id(10);
    state.members.push((nobody, vec![]));
    assert!(state.handle_invite(&nobody, target).is_err());
}

#[test]
fn handle_join_admits_invited_and_refuses_others() {
    let owner = id(11);
    let invited_bird = id(12);
    let stranger = id(13);
    let banned = id(14);
    let mut state = PermState {
        owner: Some(owner),
        invited: vec![invited_bird],
        bans: vec![banned],
        ..Default::default()
    };

    // owner is already a member.
    assert!(state.handle_join(&owner).is_ok());

    // invited bird becomes a member on first join.
    assert!(state.handle_join(&invited_bird).is_ok());
    assert!(state.is_member(&invited_bird));
    assert!(!state.invited.contains(&invited_bird));

    // a stranger with no invitation is refused.
    assert!(state.handle_join(&stranger).is_err());
    assert!(!state.is_member(&stranger));

    // a banned bird is refused even if somehow invited.
    state.invited.push(banned);
    assert!(state.handle_join(&banned).is_err());
}

#[test]
fn handle_kick_requires_kick_perm_and_rank_and_unmembers_target() {
    let role = Role {
        name: "mod".into(),
        color: (0, 200, 0),
        perms: Perm::kick() | Perm::ban(),
        position: 10,
    };
    let mod_ = id(20);
    let peer = id(21);
    let invited_back = id(22);
    let mut state = PermState {
        roles: vec![role],
        members: vec![(mod_, vec![0]), (peer, vec![])],
        invited: vec![invited_back],
        ..Default::default()
    };

    assert!(state.handle_kick(&mod_, &peer).is_ok());
    assert!(!state.is_member(&peer));
    // kicking someone who was also invited clears the pending invite.
    state.invited.push(peer);
    assert!(state.handle_kick(&mod_, &peer).is_ok());
    assert!(!state.invited.contains(&peer));
    // an equal-rank mod cannot be kicked.
    assert!(state.handle_kick(&mod_, &mod_).is_err());
}

#[test]
fn is_member_covers_owner_and_role_holders() {
    let owner = id(15);
    let member = id(16);
    let stranger = id(17);
    let state = PermState {
        owner: Some(owner),
        members: vec![(member, vec![])],
        ..Default::default()
    };
    assert!(state.is_member(&owner));
    assert!(state.is_member(&member));
    assert!(!state.is_member(&stranger));
}

#[test]
fn perm_bits_are_distinct_and_truncated() {
    assert_eq!(Perm::view_channel().bits(), 1);
    assert_eq!(Perm::invite().bits(), 256);
    assert_eq!(Perm::all().bits(), 0x1ff);
    assert_eq!(Perm::empty().bits(), 0);
    assert_eq!(Perm::from_bits_truncate(0xffff).bits(), 0x1ff);
    assert_eq!(Perm::from_bits_retain(0xffff).bits(), 0xffff);
    assert_eq!(Perm::kick().union(Perm::ban()).bits(), 8 | 16);
}

#[test]
fn refusals_name_their_reason() {
    let owner = id(30);
    let peer = id(31);
    let mut state = PermState {
        owner: Some(owner),
        members: vec![(peer, vec![])],
        bans: vec![id(32)],
        ..Default::default()
    };
    assert_eq!(state.handle_ban(&peer, &owner), Err(PermError::NotAllowed));
    assert_eq!(state.handle_kick(&peer, &owner), Err(PermError::NotAllowed));
    assert_eq!(state.handle_delete_message(&peer), Err(PermError::NotAllowed));
    assert_eq!(state.handle_invite(&owner, id(32)), Err(PermError::TargetBanned));
    assert_eq!(state.handle_join(&id(32)), Err(PermError::Banned));
    assert_eq!(state.handle_join(&id(33)), Err(PermError::NotInvited));
    assert_eq!(PermError::BanRank.message(), "can't ban equal/higher rank");
    assert!(state.handle_delete_message(&owner).is_ok());
}

#[test]
fn banned_bird_is_shut_out() {
    let owner = id(40);
    let peer = id(41);
    let mut state = PermState {
        owner: Some(owner),
        members: vec![(peer, vec![])],
        ..Default::default()
    };
    assert!(state.handle_ban(&owner, &peer).is_ok());
    assert!(!state.is_member(&peer));
    assert!(!state.is_active_member(&peer));
    assert_eq!(state.handle_join(&peer), Err(PermError::Banned));
    assert_eq!(state.handle_invite(&owner, peer), Err(PermError::TargetBanned));
}
