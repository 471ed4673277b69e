//! Roles, rosters, and who may change them.

use p2p_distribute::group::{GroupError, GroupRole, GroupRoster, MAX_GROUP_MEMBERS};
use p2p_distribute::network_id::NetworkId;
use p2p_distribute::peer_id::PeerId;

fn master_id() -> PeerId {
    PeerId::from_key_material(b"master")
}
fn admin_id() -> PeerId {
    PeerId::from_key_material(b"admin")
}
fn mirror_id() -> PeerId {
    PeerId::from_key_material(b"mirror")
}
fn reader_id() -> PeerId {
    PeerId::from_key_material(b"reader")
}
fn peer_n(n: u32) -> PeerId {
    PeerId::from_key_material(&n.to_le_bytes())
}

/// Master can manage all other roles.
#[test]
fn master_can_manage_all() {
    assert!(GroupRole::Master.can_manage(GroupRole::Admin));
    assert!(GroupRole::Master.can_manage(GroupRole::Mirror));
    assert!(GroupRole::Master.can_manage(GroupRole::Reader));
    assert!(!GroupRole::Master.can_manage(GroupRole::Master));
}

/// Admin can manage Mirror and Reader, not Master or Admin.
#[test]
fn admin_can_manage_lower() {
    assert!(GroupRole::Admin.can_manage(GroupRole::Mirror));
    assert!(GroupRole::Admin.can_manage(GroupRole::Reader));
    assert!(!GroupRole::Admin.can_manage(GroupRole::Admin));
    assert!(!GroupRole::Admin.can_manage(GroupRole::Master));
}

/// Mirror and Reader cannot manage anyone.
#[test]
fn mirror_reader_cannot_manage() {
    assert!(!GroupRole::Mirror.can_manage(GroupRole::Reader));
    assert!(!GroupRole::Reader.can_manage(GroupRole::Reader));
}

/// Only Master can publish catalog updates.
#[test]
fn only_master_can_publish() {
    assert!(GroupRole::Master.can_publish());
    assert!(!GroupRole::Admin.can_publish());
    assert!(!GroupRole::Mirror.can_publish());
    assert!(!GroupRole::Reader.can_publish());
}

/// Reader cannot serve content; all others can.
#[test]
fn reader_cannot_serve() {
    assert!(GroupRole::Master.can_serve());
    assert!(GroupRole::Admin.can_serve());
    assert!(GroupRole::Mirror.can_serve());
    assert!(!GroupRole::Reader.can_serve());
}

/// Display format for all roles.
#[test]
fn role_display() {
    assert_eq!(GroupRole::Master.display(), "master");
    assert_eq!(GroupRole::Admin.display(), "admin");
    assert_eq!(GroupRole::Mirror.display(), "mirror");
    assert_eq!(GroupRole::Reader.display(), "reader");
}

/// New roster has exactly one member (the master).
#[test]
fn new_roster_has_master() {
    let roster = GroupRoster::new(NetworkId::test(), master_id());
    assert_eq!(roster.member_count(), 1);
    assert_eq!(roster.master_id(), master_id());
    assert_eq!(roster.role_of(&master_id()), Some(GroupRole::Master));
}

/// Network ID is preserved.
#[test]
fn roster_network_id() {
    let roster = GroupRoster::new(NetworkId::production(), master_id());
    assert_eq!(roster.network_id(), NetworkId::production());
}

/// Master can add a mirror.
#[test]
fn master_adds_mirror() {
    let mut roster = GroupRoster::new(NetworkId::test(), master_id());
    let member = roster
        .add_member(&master_id(), mirror_id(), GroupRole::Mirror)
        .unwrap();
    assert_eq!(member.role, GroupRole::Mirror);
    assert_eq!(roster.member_count(), 2);
}

/// Master can add an admin.
#[test]
fn master_adds_admin() {
    let mut roster = GroupRoster::new(NetworkId::test(), master_id());
    roster
        .add_member(&master_id(), admin_id(), GroupRole::Admin)
        .unwrap();
    assert_eq!(roster.role_of(&admin_id()), Some(GroupRole::Admin));
}

/// Admin can add mirrors and readers.
#[test]
fn admin_adds_mirror_and_reader() {
    let mut roster = GroupRoster::new(NetworkId::test(), master_id());
    roster
        .add_member(&master_id(), admin_id(), GroupRole::Admin)
        .unwrap();

    roster
        .add_member(&admin_id(), mirror_id(), GroupRole::Mirror)
        .unwrap();
    roster
        .add_member(&admin_id(), reader_id(), GroupRole::Reader)
        .unwrap();
    assert_eq!(roster.member_count(), 4);
}

/// Admin cannot add another admin.
#[test]
fn admin_cannot_add_admin() {
    let mut roster = GroupRoster::new(NetworkId::test(), master_id());
    roster
        .add_member(&master_id(), admin_id(), GroupRole::Admin)
        .unwrap();

    let peer2 = PeerId::from_key_material(b"admin2");
    let err = roster
        .add_member(&admin_id(), peer2, GroupRole::Admin)
        .unwrap_err();
    assert!(matches!(err, GroupError::OnlyMasterCanPromoteAdmin));
}

/// Mirror cannot add anyone.
#[test]
fn mirror_cannot_add() {
    let mut roster = GroupRoster::new(NetworkId::test(), master_id());
    roster
        .add_member(&master_id(), mirror_id(), GroupRole::Mirror)
        .unwrap();

    let err = roster
        .add_member(&mirror_id(), reader_id(), GroupRole::Reader)
        .unwrap_err();
    assert!(matches!(err, GroupError::InsufficientPrivilege { .. }));
}

/// Cannot add a second master.
#[test]
fn cannot_add_second_master() {
    let mut roster = GroupRoster::new(NetworkId::test(), master_id());
    let err = roster
        .add_member(&master_id(), mirror_id(), GroupRole::Master)
        .unwrap_err();
    assert!(matches!(err, GroupError::MultipleMasters));
}

/// Duplicate member is rejected.
#[test]
fn duplicate_member_rejected() {
    let mut roster = GroupRoster::new(NetworkId::test(), master_id());
    roster
        .add_member(&master_id(), mirror_id(), GroupRole::Mirror)
        .unwrap();
    let err = roster
        .add_member(&master_id(), mirror_id(), GroupRole::Mirror)
        .unwrap_err();
    assert!(matches!(err, GroupError::AlreadyMember { .. }));
}

/// Non-member actor is rejected.
#[test]
fn non_member_actor_rejected() {
    let mut roster = GroupRoster::new(NetworkId::test(), master_id());
    let stranger = PeerId::from_key_material(b"stranger");
    let err = roster
        .add_member(&stranger, mirror_id(), GroupRole::Mirror)
        .unwrap_err();
    assert!(matches!(err, GroupError::NotMember { .. }));
}

/// Master can remove a mirror.
#[test]
fn master_removes_mirror() {
    let mut roster = GroupRoster::new(NetworkId::test(), master_id());
    roster
        .add_member(&master_id(), mirror_id(), GroupRole::Mirror)
        .unwrap();
    let removed = roster.remove_member(&master_id(), &mirror_id()).unwrap();
    assert_eq!(removed.role, GroupRole::Mirror);
    assert_eq!(roster.member_count(), 1);
}

/// Cannot remove the master.
#[test]
fn cannot_remove_master() {
    let mut roster = GroupRoster::new(NetworkId::test(), master_id());
    let err = roster
        .remove_member(&master_id(), &master_id())
        .unwrap_err();
    assert!(matches!(err, GroupError::CannotRemoveMaster));
}

/// Admin can remove mirrors and readers.
#[test]
fn admin_removes_mirror() {
    let mut roster = GroupRoster::new(NetworkId::test(), master_id());
    roster
        .add_member(&master_id(), admin_id(), GroupRole::Admin)
        .unwrap();
    roster
        .add_member(&admin_id(), mirror_id(), GroupRole::Mirror)
        .unwrap();
    roster.remove_member(&admin_id(), &mirror_id()).unwrap();
    assert_eq!(roster.member_count(), 2);
}

/// Master promotes mirror to admin.
#[test]
fn master_promotes_to_admin() {
    let mut roster = GroupRoster::new(NetworkId::test(), master_id());
    roster
        .add_member(&master_id(), mirror_id(), GroupRole::Mirror)
        .unwrap();
    roster
        .change_role(&master_id(), &mirror_id(), GroupRole::Admin)
        .unwrap();
    assert_eq!(roster.role_of(&mirror_id()), Some(GroupRole::Admin));
}

/// Admin cannot promote to admin.
#[test]
fn admin_cannot_promote_to_admin() {
    let mut roster = GroupRoster::new(NetworkId::test(), master_id());
    roster
        .add_member(&master_id(), admin_id(), GroupRole::Admin)
        .unwrap();
    roster
        .add_member(&admin_id(), mirror_id(), GroupRole::Mirror)
        .unwrap();
    let err = roster
        .change_role(&admin_id(), &mirror_id(), GroupRole::Admin)
        .unwrap_err();
    assert!(matches!(err, GroupError::OnlyMasterCanPromoteAdmin));
}

/// Cannot demote the master.
#[test]
fn cannot_demote_master() {
    let mut roster = GroupRoster::new(NetworkId::test(), master_id());
    let err = roster
        .change_role(&master_id(), &master_id(), GroupRole::Admin)
        .unwrap_err();
    assert!(matches!(err, GroupError::CannotDemoteMaster));
}

/// Master can transfer ownership to another member.
#[test]
fn transfer_master() {
    let mut roster = GroupRoster::new(NetworkId::test(), master_id());
    roster
        .add_member(&master_id(), admin_id(), GroupRole::Admin)
        .unwrap();
    roster.transfer_master(&master_id(), &admin_id()).unwrap();
    assert_eq!(roster.role_of(&admin_id()), Some(GroupRole::Master));
    assert_eq!(roster.role_of(&master_id()), Some(GroupRole::Admin));
    assert_eq!(roster.master_id(), admin_id());
}

/// Non-master cannot transfer ownership.
#[test]
fn non_master_cannot_transfer() {
    let mut roster = GroupRoster::new(NetworkId::test(), master_id());
    roster
        .add_member(&master_id(), admin_id(), GroupRole::Admin)
        .unwrap();
    let err = roster
        .transfer_master(&admin_id(), &master_id())
        .unwrap_err();
    assert!(matches!(err, GroupError::InsufficientPrivilege { .. }));
}

/// `members_with_role` returns sorted by join sequence.
#[test]
fn members_with_role_sorted() {
    let mut roster = GroupRoster::new(NetworkId::test(), master_id());
    let m1 = PeerId::from_key_material(b"mirror1");
    let m2 = PeerId::from_key_material(b"mirror2");
    roster
        .add_member(&master_id(), m1, GroupRole::Mirror)
        .unwrap();
    roster
        .add_member(&master_id(), m2, GroupRole::Mirror)
        .unwrap();
    let mirrors = roster.members_with_role(GroupRole::Mirror);
    assert_eq!(mirrors.len(), 2);
    assert!(mirrors[0].join_seq < mirrors[1].join_seq);
}

/// `all_members` returns everyone sorted by join sequence.
#[test]
fn all_members_sorted() {
    let mut roster = GroupRoster::new(NetworkId::test(), master_id());
    roster
        .add_member(&master_id(), admin_id(), GroupRole::Admin)
        .unwrap();
    roster
        .add_member(&master_id(), mirror_id(), GroupRole::Mirror)
        .unwrap();
    let all = roster.all_members();
    assert_eq!(all.len(), 3);
    assert_eq!(all[0].role, GroupRole::Master);
}

/// Looking up a non-member returns None.
#[test]
fn get_non_member_returns_none() {
    let roster = GroupRoster::new(NetworkId::test(), master_id());
    assert!(roster.get(&mirror_id()).is_none());
    assert!(roster.role_of(&mirror_id()).is_none());
}

/// GroupFull error includes the maximum.
#[test]
fn error_display_group_full() {
    let err = GroupError::GroupFull { max: 500 };
    assert!(err.display().contains("500"));
}

/// InsufficientPrivilege error includes both roles.
#[test]
fn error_display_insufficient_privilege() {
    let err = GroupError::InsufficientPrivilege {
        actor_role: GroupRole::Mirror,
        target_role: GroupRole::Admin,
    };
    let msg = err.display();
    assert!(msg.contains("mirror"), "should contain actor role: {msg}");
    assert!(msg.contains("admin"), "should contain target role: {msg}");
}

/// Adding beyond MAX_GROUP_MEMBERS fails.
#[test]
fn group_full_boundary() {
    let mut roster = GroupRoster::new(NetworkId::test(), master_id());
    // Fill to max (master is already member 0).
    for i in 1..MAX_GROUP_MEMBERS as u32 {
        roster
            .add_member(&master_id(), peer_n(i), GroupRole::Mirror)
            .unwrap();
    }
    assert_eq!(roster.member_count(), MAX_GROUP_MEMBERS);
    let err = roster
        .add_member(
            &master_id(),
            peer_n(MAX_GROUP_MEMBERS as u32),
            GroupRole::Mirror,
        )
        .unwrap_err();
    assert!(matches!(err, GroupError::GroupFull { .. }));
}

/// Debug output includes member count.
#[test]
fn debug_includes_member_count() {
    let roster = GroupRoster::new(NetworkId::test(), master_id());
    let debug = roster.debug_text();
    assert!(debug.contains("member_count"), "debug: {debug}");
}

/// An admin has no power over another admin.
#[test]
fn admin_cannot_demote_admin() {
    let mut roster = GroupRoster::new(NetworkId::test(), master_id());
    let second = PeerId::from_key_material(b"admin2");
    roster
        .add_member(&master_id(), admin_id(), GroupRole::Admin)
        .unwrap();
    roster
        .add_member(&master_id(), second, GroupRole::Admin)
        .unwrap();
    let err = roster
        .change_role(&admin_id(), &second, GroupRole::Reader)
        .unwrap_err();
    assert!(matches!(err, GroupError::InsufficientPrivilege { .. }));
    assert_eq!(roster.role_of(&second), Some(GroupRole::Admin));
    let err = roster.remove_member(&admin_id(), &second).unwrap_err();
    assert!(matches!(err, GroupError::InsufficientPrivilege { .. }));
}

/// Removing a member that was added leaves the roster as it was.
#[test]
fn remove_undoes_add() {
    let mut roster = GroupRoster::new(NetworkId::test(), master_id());
    roster
        .add_member(&master_id(), admin_id(), GroupRole::Admin)
        .unwrap();
    roster
        .add_member(&admin_id(), reader_id(), GroupRole::Reader)
        .unwrap();
    roster.remove_member(&admin_id(), &reader_id()).unwrap();
    assert!(roster.get(&reader_id()).is_none());
    assert_eq!(roster.member_count(), 2);
    let err = roster.remove_member(&admin_id(), &reader_id()).unwrap_err();
    assert!(matches!(err, GroupError::NotMember { .. }));
}

/// A transfer to a stranger changes nothing.
#[test]
fn transfer_to_stranger_rejected() {
    let mut roster = GroupRoster::new(NetworkId::test(), master_id());
    let err = roster
        .transfer_master(&master_id(), &mirror_id())
        .unwrap_err();
    assert!(matches!(err, GroupError::NotMember { .. }));
    assert_eq!(roster.master_id(), master_id());
}

/// Each error has its own text.
#[test]
fn group_error_texts() {
    let peer = PeerId::from_bytes([0xAB; 32]);
    let cases = [
        (GroupError::GroupFull { max: 500 }, "group is full (500 members)"),
        (
            GroupError::AlreadyMember {
                peer_id: peer,
                existing_role: GroupRole::Mirror,
            },
            "peer abababababababab\u{2026} is already a member with role mirror",
        ),
        (
            GroupError::NotMember { peer_id: peer },
            "peer abababababababab\u{2026} is not a member of this group",
        ),
        (
            GroupError::InsufficientPrivilege {
                actor_role: GroupRole::Mirror,
                target_role: GroupRole::Admin,
            },
            "mirror cannot manage admin members (insufficient privilege)",
        ),
        (
            GroupError::CannotRemoveMaster,
            "cannot remove the group master \u{2014} transfer ownership first",
        ),
        (
            GroupError::CannotDemoteMaster,
            "cannot demote the group master \u{2014} transfer ownership first",
        ),
        (
            GroupError::OnlyMasterCanPromoteAdmin,
            "only the master can promote members to admin",
        ),
        (
            GroupError::MultipleMasters,
            "group must have exactly one master",
        ),
    ];
    for (err, text) in cases {
        assert_eq!(err.display(), text);
    }
}

/// Join numbers rise strictly in every list, also after members left, and one
/// member is listed as the master.
#[test]
fn lists_are_in_join_order() {
    let mut roster = GroupRoster::new(NetworkId::test(), master_id());
    let peers: Vec<PeerId> = (0..6u8).map(|i| PeerId::from_bytes([i; 32])).collect();
    for peer in &peers {
        roster
            .add_member(&master_id(), *peer, GroupRole::Mirror)
            .unwrap();
    }
    roster.remove_member(&master_id(), &peers[2]).unwrap();
    roster
        .add_member(&master_id(), peers[2], GroupRole::Mirror)
        .unwrap();
    roster
        .change_role(&master_id(), &peers[4], GroupRole::Reader)
        .unwrap();
    roster.transfer_master(&master_id(), &peers[0]).unwrap();

    let mirrors: Vec<PeerId> = roster
        .members_with_role(GroupRole::Mirror)
        .iter()
        .map(|m| m.peer_id)
        .collect();
    assert_eq!(mirrors, vec![peers[1], peers[3], peers[5], peers[2]]);
    let numbers: Vec<u64> = roster.all_members().iter().map(|m| m.join_seq).collect();
    assert_eq!(numbers, vec![0, 1, 2, 4, 5, 6, 7]);
    let masters = roster.members_with_role(GroupRole::Master);
    assert_eq!(masters.len(), 1);
    assert_eq!(masters[0].peer_id, roster.master_id());
}
