//! Closed share group membership: role-based access control for managed
//! replication groups.
//!
//! A *group* is a set of peers that cooperate to replicate a signed content
//! catalog. A single **master** publishes catalog updates, **admins** manage
//! membership, **mirrors** replicate content and **readers** only download.
//! [`GroupRoster`] keeps the membership list and its mutation rules.

use vstd::prelude::*;

use crate::network_id::NetworkId;
use crate::peer_id::PeerId;
use crate::text::decimal;
use crate::text::hex_char;
use crate::text::hex_chars;
use crate::text::push_decimal;

verus! {

/// Maximum number of members in a single group.
pub const MAX_GROUP_MEMBERS: usize = 500;

// ── Roles ───────────────────────────────────────────────────────────

/// Role within a closed share group, ordered by privilege level.
#[derive(Debug, Clone, Copy, PartialEq, Eq, Hash, Structural)]
pub enum GroupRole {
    /// Publishes catalog updates and manages all membership. Exactly one per
    /// group.
    Master,
    /// Manages mirrors and readers.
    Admin,
    /// Replicates content and serves it to other peers.
    Mirror,
    /// Downloads content only.
    Reader,
}

impl GroupRole {
    /// The numeric privilege level (higher is more privileged).
    pub open spec fn level(self) -> int {
        match self {
            GroupRole::Master => 3,
            GroupRole::Admin => 2,
            GroupRole::Mirror => 1,
            GroupRole::Reader => 0,
        }
    }

    /// Whether a role may manage members of another: masters and admins
    /// manage what is strictly below them, others manage nobody.
    pub open spec fn manages(self, target: GroupRole) -> bool {
        (self is Master || self is Admin) && self.level() > target.level()
    }

    /// The name of the role.
    pub open spec fn name(self) -> Seq<char> {
        match self {
            GroupRole::Master => "master"@,
            GroupRole::Admin => "admin"@,
            GroupRole::Mirror => "mirror"@,
            GroupRole::Reader => "reader"@,
        }
    }

    /// Returns the numeric privilege level (higher is more privileged).
    fn privilege_level(self) -> (r: u8)
        ensures
            r == self.level(),
    {
        match self {
            GroupRole::Master => 3,
            GroupRole::Admin => 2,
            GroupRole::Mirror => 1,
            GroupRole::Reader => 0,
        }
    }

    /// Whether this role can manage (add, remove, demote) a member with the
    /// given target role.
    pub fn can_manage(self, target: GroupRole) -> (r: bool)
        ensures
            r == self.manages(target),
    {
        match self {
            GroupRole::Master | GroupRole::Admin => self.privilege_level()
                > target.privilege_level(),
            GroupRole::Mirror | GroupRole::Reader => false,
        }
    }

    /// Whether this role can publish catalog updates. Only the master can.
    pub fn can_publish(self) -> (r: bool)
        ensures
            r == (self is Master),
    {
        matches!(self, GroupRole::Master)
    }

    /// Whether this role can serve content pieces to other peers. Readers are
    /// download-only.
    pub fn can_serve(self) -> (r: bool)
        ensures
            r == !(self is Reader),
    {
        !matches!(self, GroupRole::Reader)
    }

    /// The name shown for this role.
    pub fn display(self) -> (r: &'static str)
        ensures
            r@ == self.name(),
    {
        match self {
            GroupRole::Master => "master",
            GroupRole::Admin => "admin",
            GroupRole::Mirror => "mirror",
            GroupRole::Reader => "reader",
        }
    }
}

// ── Members ─────────────────────────────────────────────────────────

/// A member of a closed share group.
#[derive(Debug, Clone, Copy, PartialEq, Eq)]
pub struct GroupMember {
    /// The member's peer identity.
    pub peer_id: PeerId,
    /// The member's role in the group.
    pub role: GroupRole,
    /// Join sequence number, assigned by the roster. Lower joined earlier.
    pub join_seq: u64,
}

// ── Errors ──────────────────────────────────────────────────────────

/// Errors from group roster operations.
#[derive(Debug)]
pub enum GroupError {
    /// The group has no room for another member.
    GroupFull {
        /// Maximum number of members.
        max: usize,
    },
    /// The peer already belongs to the group.
    AlreadyMember {
        /// The peer to be added.
        peer_id: PeerId,
        /// The role that it has.
        existing_role: GroupRole,
    },
    /// The peer does not belong to the group.
    NotMember {
        /// The peer that was named.
        peer_id: PeerId,
    },
    /// The actor's role does not allow the change.
    InsufficientPrivilege {
        /// The actor's role.
        actor_role: GroupRole,
        /// The role that was to be managed.
        target_role: GroupRole,
    },
    /// The master cannot be removed.
    CannotRemoveMaster,
    /// The master cannot be demoted.
    CannotDemoteMaster,
    /// Only the master makes admins.
    OnlyMasterCanPromoteAdmin,
    /// A second master is not allowed.
    MultipleMasters,
}

/// How a peer is shown in a message.
pub open spec fn shown_peer(id: PeerId) -> Seq<char> {
    hex_chars(id@.take(8)).push('\u{2026}')
}

impl GroupError {
    /// The text shown for an error.
    pub open spec fn text(self) -> Seq<char> {
        match self {
            GroupError::GroupFull { max } => "group is full ("@ + decimal(max as nat)
                + " members)"@,
            GroupError::AlreadyMember { peer_id, existing_role } => "peer "@ + shown_peer(peer_id)
                + " is already a member with role "@ + existing_role.name(),
            GroupError::NotMember { peer_id } => "peer "@ + shown_peer(peer_id)
                + " is not a member of this group"@,
            GroupError::InsufficientPrivilege { actor_role, target_role } => actor_role.name()
                + " cannot manage "@ + target_role.name() + " members (insufficient privilege)"@,
            GroupError::CannotRemoveMaster => "cannot remove the group master — transfer ownership first"@,
            GroupError::CannotDemoteMaster => "cannot demote the group master — transfer ownership first"@,
            GroupError::OnlyMasterCanPromoteAdmin => "only the master can promote members to admin"@,
            GroupError::MultipleMasters => "group must have exactly one master"@,
        }
    }

    /// The text shown for this error.
    pub fn display(&self) -> (r: String)
        ensures
            r@ == self.text(),
    {
        let mut out = String::new();
        match self {
            GroupError::GroupFull { max } => {
                out.append("group is full (");
                push_decimal(&mut out, *max as u64);
                out.append(" members)");
            },
            GroupError::AlreadyMember { peer_id, existing_role } => {
                out.append("peer ");
                out.append(peer_id.display().as_str());
                out.append(" is already a member with role ");
                out.append(existing_role.display());
            },
            GroupError::NotMember { peer_id } => {
                out.append("peer ");
                out.append(peer_id.display().as_str());
                out.append(" is not a member of this group");
            },
            GroupError::InsufficientPrivilege { actor_role, target_role } => {
                out.append(actor_role.display());
                out.append(" cannot manage ");
                out.append(target_role.display());
                out.append(" members (insufficient privilege)");
            },
            GroupError::CannotRemoveMaster => {
                out.append("cannot remove the group master — transfer ownership first");
            },
            GroupError::CannotDemoteMaster => {
                out.append("cannot demote the group master — transfer ownership first");
            },
            GroupError::OnlyMasterCanPromoteAdmin => {
                out.append("only the master can promote members to admin");
            },
            GroupError::MultipleMasters => {
                out.append("group must have exactly one master");
            },
        }
        out
    }
}

// ── Model ───────────────────────────────────────────────────────────

/// What a roster holds: its members in the order in which they joined.
#[verifier::ext_equal]
pub struct RosterView {
    /// The network that the group belongs to.
    pub network_id: Seq<u8>,
    /// Members in join order.
    pub members: Seq<GroupMember>,
    /// The sequence number of the next member.
    pub next_seq: u64,
}

/// The member at `i` is the peer `id`.
pub open spec fn is_at(members: Seq<GroupMember>, id: PeerId, i: int) -> bool {
    0 <= i < members.len() && members[i].peer_id@ == id@
}

/// Where a peer stands in a list of members.
pub open spec fn place_of(members: Seq<GroupMember>, id: PeerId) -> Option<int> {
    if exists|i: int| is_at(members, id, i) {
        Some(choose|i: int| is_at(members, id, i))
    } else {
        None
    }
}

/// The member at `i` is a master.
pub open spec fn is_master_at(members: Seq<GroupMember>, i: int) -> bool {
    0 <= i < members.len() && members[i].role is Master
}

/// The member at `i` with another role.
pub open spec fn with_role(members: Seq<GroupMember>, i: int, role: GroupRole) -> Seq<GroupMember> {
    members.update(i, GroupMember { role, ..members[i] })
}

/// One member joined before another. Numbers repeat only once the counter of
/// joins is full.
pub open spec fn joined_before(a: GroupMember, b: GroupMember) -> bool {
    a.join_seq < b.join_seq || (a.join_seq == u64::MAX && b.join_seq == u64::MAX)
}

/// Members that have a role.
pub open spec fn has_role(role: GroupRole) -> spec_fn(GroupMember) -> bool {
    |m: GroupMember| m.role == role
}

impl RosterView {
    /// No peer twice, exactly one master, in join order, within the limit.
    pub open spec fn wf(self) -> bool {
        &&& forall|i: int, j: int|
            0 <= i < j < self.members.len() ==> (#[trigger] self.members[i]).peer_id@ != (
            #[trigger] self.members[j]).peer_id@
        &&& exists|i: int| is_master_at(self.members, i)
        &&& forall|i: int, j: int| #[trigger]
            is_master_at(self.members, i) && #[trigger] is_master_at(self.members, j) ==> i == j
        &&& forall|i: int, j: int|
            0 <= i < j < self.members.len() ==> joined_before(
                #[trigger] self.members[i],
                #[trigger] self.members[j],
            )
        &&& forall|i: int|
            0 <= i < self.members.len() ==> (#[trigger] self.members[i]).join_seq <= self.next_seq
        &&& self.next_seq < u64::MAX ==> forall|i: int|
            0 <= i < self.members.len() ==> (#[trigger] self.members[i]).join_seq < self.next_seq
        &&& self.members.len() <= MAX_GROUP_MEMBERS
    }

    /// The role of a peer, if it is a member.
    pub open spec fn role_of(self, id: PeerId) -> Option<GroupRole> {
        match place_of(self.members, id) {
            Some(i) => Some(self.members[i].role),
            None => None,
        }
    }

    /// The roster with one more member.
    pub open spec fn joined(self, id: PeerId, role: GroupRole) -> RosterView {
        RosterView {
            members: self.members.push(GroupMember { peer_id: id, role, join_seq: self.next_seq }),
            next_seq: if self.next_seq < u64::MAX {
                (self.next_seq + 1) as u64
            } else {
                self.next_seq
            },
            ..self
        }
    }

    /// What adding a member comes to. The role decides first, then the
    /// actor's privilege, then whether the peer is new, then the room.
    pub open spec fn add_outcome(self, actor: PeerId, id: PeerId, role: GroupRole) -> Result<
        RosterView,
        GroupError,
    > {
        if role is Master {
            Err(GroupError::MultipleMasters)
        } else {
            match self.role_of(actor) {
                None => Err(GroupError::NotMember { peer_id: actor }),
                Some(actor_role) => if role is Admin && !(actor_role is Master) {
                    Err(GroupError::OnlyMasterCanPromoteAdmin)
                } else if !actor_role.manages(role) {
                    Err(GroupError::InsufficientPrivilege { actor_role, target_role: role })
                } else {
                    match self.role_of(id) {
                        Some(existing_role) => Err(
                            GroupError::AlreadyMember { peer_id: id, existing_role },
                        ),
                        None => if self.members.len() >= MAX_GROUP_MEMBERS {
                            Err(GroupError::GroupFull { max: MAX_GROUP_MEMBERS })
                        } else {
                            Ok(self.joined(id, role))
                        },
                    }
                },
            }
        }
    }

    /// What removing a member comes to.
    pub open spec fn remove_outcome(self, actor: PeerId, target: PeerId) -> Result<
        RosterView,
        GroupError,
    > {
        match place_of(self.members, target) {
            None => Err(GroupError::NotMember { peer_id: target }),
            Some(i) => if self.members[i].role is Master {
                Err(GroupError::CannotRemoveMaster)
            } else {
                match self.role_of(actor) {
                    None => Err(GroupError::NotMember { peer_id: actor }),
                    Some(actor_role) => if !actor_role.manages(self.members[i].role) {
                        Err(
                            GroupError::InsufficientPrivilege {
                                actor_role,
                                target_role: self.members[i].role,
                            },
                        )
                    } else {
                        Ok(RosterView { members: self.members.remove(i), ..self })
                    },
                }
            },
        }
    }

    /// What changing a role comes to.
    pub open spec fn change_outcome(self, actor: PeerId, target: PeerId, role: GroupRole) -> Result<
        RosterView,
        GroupError,
    > {
        match place_of(self.members, target) {
            None => Err(GroupError::NotMember { peer_id: target }),
            Some(i) => if self.members[i].role is Master {
                Err(GroupError::CannotDemoteMaster)
            } else if role is Master {
                Err(GroupError::MultipleMasters)
            } else {
                match self.role_of(actor) {
                    None => Err(GroupError::NotMember { peer_id: actor }),
                    Some(actor_role) => if role is Admin && !(actor_role is Master) {
                        Err(GroupError::OnlyMasterCanPromoteAdmin)
                    } else if !actor_role.manages(self.members[i].role) {
                        Err(
                            GroupError::InsufficientPrivilege {
                                actor_role,
                                target_role: self.members[i].role,
                            },
                        )
                    } else {
                        Ok(RosterView { members: with_role(self.members, i, role), ..self })
                    },
                }
            },
        }
    }

    /// What handing over the master role comes to: the master becomes an
    /// admin, the target becomes the master.
    pub open spec fn transfer_outcome(self, current: PeerId, next: PeerId) -> Result<
        RosterView,
        GroupError,
    > {
        match place_of(self.members, current) {
            None => Err(GroupError::NotMember { peer_id: current }),
            Some(i) => if !(self.members[i].role is Master) {
                Err(
                    GroupError::InsufficientPrivilege {
                        actor_role: self.members[i].role,
                        target_role: GroupRole::Master,
                    },
                )
            } else {
                match place_of(self.members, next) {
                    None => Err(GroupError::NotMember { peer_id: next }),
                    Some(j) => Ok(
                        RosterView {
                            members: with_role(
                                with_role(self.members, i, GroupRole::Admin),
                                j,
                                GroupRole::Master,
                            ),
                            ..self
                        },
                    ),
                }
            },
        }
    }
}

/// In a roster a peer stands in one place at most.
pub proof fn lemma_place(v: RosterView, id: PeerId, i: int)
    requires
        v.wf(),
        is_at(v.members, id, i),
    ensures
        place_of(v.members, id) == Some(i),
{
    let j = choose|j: int| is_at(v.members, id, j);
    assert(is_at(v.members, id, j));
    if i < j {
        assert(v.members[i].peer_id@ != v.members[j].peer_id@);
    } else if j < i {
        assert(v.members[j].peer_id@ != v.members[i].peer_id@);
    }
}

/// Adding a member keeps the roster well-formed.
proof fn lemma_joined_wf(v: RosterView, id: PeerId, role: GroupRole)
    requires
        v.wf(),
        place_of(v.members, id) is None,
        !(role is Master),
        v.members.len() < MAX_GROUP_MEMBERS,
    ensures
        v.joined(id, role).wf(),
        place_of(v.joined(id, role).members, id) == Some(v.members.len() as int),
{
    let r = v.joined(id, role);
    let n = v.members.len() as int;
    assert forall|i: int| 0 <= i < n implies (#[trigger] v.members[i]).peer_id@
        != id@ by {
        assert(!is_at(v.members, id, i));
    }
    assert forall|i: int, j: int| 0 <= i < j < r.members.len() implies (
    #[trigger] r.members[i]).peer_id@ != (#[trigger] r.members[j]).peer_id@ by {
        assert(r.members[i] == v.members[i]);
        if j < n {
            assert(r.members[j] == v.members[j]);
        }
    }
    let m = choose|i: int| is_master_at(v.members, i);
    assert(is_master_at(r.members, m));
    assert forall|i: int| #[trigger] is_master_at(r.members, i) implies is_master_at(
        v.members,
        i,
    ) by {
        assert(i < n);
    }
    assert(is_at(r.members, id, n));
    lemma_place(r, id, n);
}

/// Removing a member that is not the master keeps the roster well-formed.
proof fn lemma_removed_wf(v: RosterView, at: int)
    requires
        v.wf(),
        0 <= at < v.members.len(),
        !(v.members[at].role is Master),
    ensures
        (RosterView { members: v.members.remove(at), ..v }).wf(),
        place_of(v.members.remove(at), v.members[at].peer_id) is None,
{
    let r = RosterView { members: v.members.remove(at), ..v };
    assert forall|i: int| 0 <= i < r.members.len() implies #[trigger] r.members[i] == v.members[if i
        < at {
        i
    } else {
        i + 1
    }] by {}
    let m = choose|i: int| is_master_at(v.members, i);
    assert(is_master_at(r.members, if m < at { m } else { m - 1 }));
    assert forall|i: int| #[trigger] is_master_at(r.members, i) implies is_master_at(
        v.members,
        if i < at { i } else { i + 1 },
    ) by {}
    if exists|i: int| is_at(r.members, v.members[at].peer_id, i) {
        let i = choose|i: int| is_at(r.members, v.members[at].peer_id, i);
        if i < at {
            assert(r.members[i] == v.members[i]);
            assert(v.members[i].peer_id@ != v.members[at].peer_id@);
        } else {
            assert(r.members[i] == v.members[i + 1]);
            assert(v.members[at].peer_id@ != v.members[i + 1].peer_id@);
        }
    }
}

/// Giving a member that is not the master another lower role keeps the roster
/// well-formed.
proof fn lemma_changed_wf(v: RosterView, at: int, role: GroupRole)
    requires
        v.wf(),
        0 <= at < v.members.len(),
        !(v.members[at].role is Master),
        !(role is Master),
    ensures
        (RosterView { members: with_role(v.members, at, role), ..v }).wf(),
{
    let r = RosterView { members: with_role(v.members, at, role), ..v };
    let m = choose|i: int| is_master_at(v.members, i);
    assert(is_master_at(r.members, m));
    assert forall|i: int| #[trigger] is_master_at(r.members, i) implies is_master_at(
        v.members,
        i,
    ) by {}
}

/// Handing over the master role keeps the roster well-formed.
proof fn lemma_transferred_wf(v: RosterView, from: int, to: int)
    requires
        v.wf(),
        is_master_at(v.members, from),
        0 <= to < v.members.len(),
    ensures
        (RosterView {
            members: with_role(
                with_role(v.members, from, GroupRole::Admin),
                to,
                GroupRole::Master,
            ),
            ..v
        }).wf(),
{
    let members = with_role(with_role(v.members, from, GroupRole::Admin), to, GroupRole::Master);
    assert(is_master_at(members, to));
    assert forall|i: int| #[trigger] is_master_at(members, i) implies i == to by {
        if i != to && i != from {
            assert(is_master_at(v.members, i));
        }
    }
}

// ── Roster ──────────────────────────────────────────────────────────

/// Manages membership for a closed share group.
///
/// There is exactly one master at all times. Admins add and remove mirrors and
/// readers. Only the master makes admins or hands over the group. A peer is a
/// member once at most.
pub struct GroupRoster {
    network_id: NetworkId,
    members: Vec<GroupMember>,
    next_seq: u64,
}

impl View for GroupRoster {
    type V = RosterView;

    closed spec fn view(&self) -> RosterView {
        RosterView {
            network_id: self.network_id@,
            members: self.members@,
            next_seq: self.next_seq,
        }
    }
}

/// Members behind references.
pub open spec fn referred(members: Seq<&GroupMember>) -> Seq<GroupMember> {
    Seq::new(members.len(), |i: int| *members[i])
}

impl GroupRoster {
    /// One master, no peer twice, within the limit.
    pub open spec fn wf(self) -> bool {
        self@.wf()
    }

    /// Creates a new group with the given master.
    pub fn new(network_id: NetworkId, master_id: PeerId) -> (r: GroupRoster)
        ensures
            r.wf(),
            r@ == (RosterView {
                network_id: network_id@,
                members: seq![
                    GroupMember { peer_id: master_id, role: GroupRole::Master, join_seq: 0 },
                ],
                next_seq: 1,
            }),
    {
        let mut members: Vec<GroupMember> = Vec::new();
        members.push(GroupMember { peer_id: master_id, role: GroupRole::Master, join_seq: 0 });
        assert(is_master_at(members@, 0));
        GroupRoster { network_id, members, next_seq: 1 }
    }

    /// Returns the network ID for this group.
    pub fn network_id(&self) -> (r: NetworkId)
        ensures
            r@ == self@.network_id,
    {
        self.network_id
    }

    /// Returns the number of members in the group.
    pub fn member_count(&self) -> (r: usize)
        ensures
            r == self@.members.len(),
    {
        self.members.len()
    }

    /// Finds where a peer stands.
    fn find(&self, peer_id: &PeerId) -> (r: Option<usize>)
        requires
            self.wf(),
        ensures
            match r {
                Some(i) => i < self.members@.len() && place_of(self.members@, *peer_id) == Some(
                    i as int,
                ),
                None => place_of(self.members@, *peer_id) is None,
            },
    {
        let mut i: usize = 0;
        while i < self.members.len()
            invariant
                self.wf(),
                i <= self.members@.len(),
                forall|k: int| 0 <= k < i ==> !#[trigger] is_at(self.members@, *peer_id, k),
            decreases self.members@.len() - i,
        {
            if self.members[i].peer_id == *peer_id {
                proof {
                    assert(is_at(self@.members, *peer_id, i as int));
                    lemma_place(self@, *peer_id, i as int);
                }
                return Some(i);
            }
            i += 1;
        }
        None
    }

    /// Returns the master's identity.
    pub fn master_id(&self) -> (r: PeerId)
        requires
            self.wf(),
        ensures
            exists|i: int| #[trigger] is_master_at(self@.members, i) && self@.members[i].peer_id == r,
    {
        let mut i: usize = 0;
        let ghost m = choose|i: int| is_master_at(self@.members, i);
        while i < self.members.len()
            invariant
                i <= self.members@.len(),
                self@.members == self.members@,
                is_master_at(self.members@, m),
                m >= i,
            decreases self.members@.len() - i,
        {
            if self.members[i].role == GroupRole::Master {
                assert(is_master_at(self@.members, i as int));
                return self.members[i].peer_id;
            }
            i += 1;
        }
        assert(false);
        self.members[0].peer_id
    }

    /// Looks up a member.
    pub fn get(&self, peer_id: &PeerId) -> (r: Option<&GroupMember>)
        requires
            self.wf(),
        ensures
            match r {
                Some(m) => place_of(self@.members, *peer_id) matches Some(i)
                    && *m == self@.members[i],
                None => place_of(self@.members, *peer_id) is None,
            },
    {
        match self.find(peer_id) {
            Some(i) => Some(&self.members[i]),
            None => None,
        }
    }

    /// Returns the role of a peer, or `None` if not a member.
    pub fn role_of(&self, peer_id: &PeerId) -> (r: Option<GroupRole>)
        requires
            self.wf(),
        ensures
            r == self@.role_of(*peer_id),
    {
        match self.find(peer_id) {
            Some(i) => Some(self.members[i].role),
            None => None,
        }
    }

    /// Adds a new member to the group.
    ///
    /// The actor must have sufficient privilege to add a member with the given
    /// role.
    pub fn add_member(&mut self, actor: &PeerId, new_peer: PeerId, role: GroupRole) -> (r: Result<
        &GroupMember,
        GroupError,
    >)
        requires
            old(self).wf(),
        ensures
            final(self).wf(),
            match r {
                Ok(member) => {
                    &&& old(self)@.add_outcome(*actor, new_peer, role) == Ok::<
                        RosterView,
                        GroupError,
                    >(final(self)@)
                    &&& *member == (GroupMember {
                        peer_id: new_peer,
                        role,
                        join_seq: old(self)@.next_seq,
                    })
                },
                Err(e) => {
                    &&& old(self)@.add_outcome(*actor, new_peer, role) == Err::<
                        RosterView,
                        GroupError,
                    >(e)
                    &&& final(self)@ == old(self)@
                },
            },
    {
        if role == GroupRole::Master {
            return Err(GroupError::MultipleMasters);
        }
        let actor_role = match self.role_of(actor) {
            Some(actor_role) => actor_role,
            None => return Err(GroupError::NotMember { peer_id: *actor }),
        };
        if role == GroupRole::Admin {
            if actor_role != GroupRole::Master {
                return Err(GroupError::OnlyMasterCanPromoteAdmin);
            }
        } else if !actor_role.can_manage(role) {
            return Err(GroupError::InsufficientPrivilege { actor_role, target_role: role });
        }
        match self.role_of(&new_peer) {
            Some(existing_role) => {
                return Err(GroupError::AlreadyMember { peer_id: new_peer, existing_role });
            },
            None => {},
        }
        if self.members.len() >= MAX_GROUP_MEMBERS {
            return Err(GroupError::GroupFull { max: MAX_GROUP_MEMBERS });
        }
        proof {
            lemma_joined_wf(self@, new_peer, role);
        }
        let join_seq: u64 = self.next_seq;
        self.next_seq = self.next_seq.saturating_add(1);
        self.members.push(GroupMember { peer_id: new_peer, role, join_seq });
        let last: usize = self.members.len() - 1;
        Ok(&self.members[last])
    }

    /// Removes a member from the group.
    ///
    /// The actor must have sufficient privilege. The master cannot be removed:
    /// use `transfer_master` first.
    pub fn remove_member(&mut self, actor: &PeerId, target: &PeerId) -> (r: Result<
        GroupMember,
        GroupError,
    >)
        requires
            old(self).wf(),
        ensures
            final(self).wf(),
            match r {
                Ok(member) => {
                    &&& old(self)@.remove_outcome(*actor, *target) == Ok::<RosterView, GroupError>(
                        final(self)@,
                    )
                    &&& place_of(old(self)@.members, *target) matches Some(i)
                    &&& member == old(self)@.members[i]
                },
                Err(e) => {
                    &&& old(self)@.remove_outcome(*actor, *target) == Err::<RosterView, GroupError>(
                        e,
                    )
                    &&& final(self)@ == old(self)@
                },
            },
    {
        let at: usize = match self.find(target) {
            Some(i) => i,
            None => return Err(GroupError::NotMember { peer_id: *target }),
        };
        let target_role = self.members[at].role;
        if target_role == GroupRole::Master {
            return Err(GroupError::CannotRemoveMaster);
        }
        let actor_role = match self.role_of(actor) {
            Some(actor_role) => actor_role,
            None => return Err(GroupError::NotMember { peer_id: *actor }),
        };
        if !actor_role.can_manage(target_role) {
            return Err(GroupError::InsufficientPrivilege { actor_role, target_role });
        }
        proof {
            lemma_removed_wf(self@, at as int);
        }
        Ok(self.members.remove(at))
    }

    /// Changes a member's role (promote or demote).
    ///
    /// Only the master can promote to admin. Admins can demote mirrors to
    /// readers and vice versa. The master's role cannot be changed.
    pub fn change_role(&mut self, actor: &PeerId, target: &PeerId, new_role: GroupRole) -> (r:
        Result<(), GroupError>)
        requires
            old(self).wf(),
        ensures
            final(self).wf(),
            match r {
                Ok(()) => old(self)@.change_outcome(*actor, *target, new_role) == Ok::<
                    RosterView,
                    GroupError,
                >(final(self)@),
                Err(e) => {
                    &&& old(self)@.change_outcome(*actor, *target, new_role) == Err::<
                        RosterView,
                        GroupError,
                    >(e)
                    &&& final(self)@ == old(self)@
                },
            },
    {
        let at: usize = match self.find(target) {
            Some(i) => i,
            None => return Err(GroupError::NotMember { peer_id: *target }),
        };
        let member = self.members[at];
        if member.role == GroupRole::Master {
            return Err(GroupError::CannotDemoteMaster);
        }
        if new_role == GroupRole::Master {
            return Err(GroupError::MultipleMasters);
        }
        let actor_role = match self.role_of(actor) {
            Some(actor_role) => actor_role,
            None => return Err(GroupError::NotMember { peer_id: *actor }),
        };
        if new_role == GroupRole::Admin {
            if actor_role != GroupRole::Master {
                return Err(GroupError::OnlyMasterCanPromoteAdmin);
            }
        } else if !actor_role.can_manage(member.role) {
            return Err(
                GroupError::InsufficientPrivilege { actor_role, target_role: member.role },
            );
        }
        proof {
            lemma_changed_wf(self@, at as int, new_role);
        }
        self.set_role(at, new_role);
        Ok(())
    }

    /// Gives the member at `at` a role.
    fn set_role(&mut self, at: usize, role: GroupRole)
        requires
            at < old(self).members@.len(),
        ensures
            final(self)@ == (RosterView {
                members: with_role(old(self)@.members, at as int, role),
                ..old(self)@
            }),
    {
        let member = self.members[at];
        self.members[at] = GroupMember {
            peer_id: member.peer_id,
            role,
            join_seq: member.join_seq,
        };
    }

    /// Transfers master ownership to another member.
    ///
    /// The current master becomes an admin. Only the current master can
    /// initiate this.
    pub fn transfer_master(&mut self, current_master: &PeerId, new_master: &PeerId) -> (r: Result<
        (),
        GroupError,
    >)
        requires
            old(self).wf(),
        ensures
            final(self).wf(),
            match r {
                Ok(()) => old(self)@.transfer_outcome(*current_master, *new_master) == Ok::<
                    RosterView,
                    GroupError,
                >(final(self)@),
                Err(e) => {
                    &&& old(self)@.transfer_outcome(*current_master, *new_master) == Err::<
                        RosterView,
                        GroupError,
                    >(e)
                    &&& final(self)@ == old(self)@
                },
            },
    {
        let from: usize = match self.find(current_master) {
            Some(i) => i,
            None => return Err(GroupError::NotMember { peer_id: *current_master }),
        };
        let actor_role = self.members[from].role;
        if actor_role != GroupRole::Master {
            return Err(
                GroupError::InsufficientPrivilege { actor_role, target_role: GroupRole::Master },
            );
        }
        let to: usize = match self.find(new_master) {
            Some(i) => i,
            None => return Err(GroupError::NotMember { peer_id: *new_master }),
        };
        proof {
            assert(is_master_at(self@.members, from as int));
            lemma_transferred_wf(self@, from as int, to as int);
        }
        self.set_role(from, GroupRole::Admin);
        self.set_role(to, GroupRole::Master);
        Ok(())
    }

    /// Lists all members with the given role, in join order.
    pub fn members_with_role(&self, role: GroupRole) -> (r: Vec<&GroupMember>)
        ensures
            referred(r@) == self@.members.filter(has_role(role)),
    {
        let mut result: Vec<&GroupMember> = Vec::new();
        let mut i: usize = 0;
        let ghost keep = has_role(role);
        assert(self.members@.take(0) == Seq::<GroupMember>::empty());
        reveal(Seq::filter);
        while i < self.members.len()
            invariant
                i <= self.members@.len(),
                keep == has_role(role),
                referred(result@) == self.members@.take(i as int).filter(keep),
            decreases self.members@.len() - i,
        {
            let member = &self.members[i];
            proof {
                reveal(Seq::filter);
                let next = self.members@.take(i + 1);
                assert(next.drop_last() == self.members@.take(i as int));
                assert(next.last() == *member);
            }
            let ghost before = result@;
            if member.role == role {
                result.push(member);
                assert(referred(result@) == referred(before).push(*member));
            }
            i += 1;
        }
        assert(self.members@.take(i as int) == self.members@);
        result
    }

    /// Lists all members, in join order.
    pub fn all_members(&self) -> (r: Vec<&GroupMember>)
        ensures
            referred(r@) == self@.members,
    {
        let mut result: Vec<&GroupMember> = Vec::new();
        let mut i: usize = 0;
        while i < self.members.len()
            invariant
                i <= self.members@.len(),
                referred(result@) == self.members@.take(i as int),
            decreases self.members@.len() - i,
        {
            let ghost before = result@;
            result.push(&self.members[i]);
            assert(referred(result@) == referred(before).push(self.members@[i as int]));
            i += 1;
        }
        assert(self.members@.take(i as int) == self.members@);
        result
    }

    /// The roster for diagnostics.
    pub fn debug_text(&self) -> (r: String)
        ensures
            r@ == "GroupRoster { network_id: "@ + hex_chars(self@.network_id.take(8)).push(
                '\u{2026}',
            ) + ", member_count: "@ + decimal(self@.members.len()) + ", next_seq: "@ + decimal(
                self@.next_seq as nat,
            ) + " }"@,
    {
        let mut out = String::new();
        out.append("GroupRoster { network_id: ");
        out.append(self.network_id.display().as_str());
        out.append(", member_count: ");
        push_decimal(&mut out, self.members.len() as u64);
        out.append(", next_seq: ");
        push_decimal(&mut out, self.next_seq);
        out.append(" }");
        out
    }
}

// ── Laws ────────────────────────────────────────────────────────────

/// The role of the peer at `i`.
proof fn lemma_role_at(v: RosterView, id: PeerId, i: int)
    requires
        v.wf(),
        is_at(v.members, id, i),
    ensures
        v.role_of(id) == Some(v.members[i].role),
{
    lemma_place(v, id, i);
}

/// Where places and peers are the same, a peer has the same role unless the
/// role at its place changed.
proof fn lemma_role_kept(v: RosterView, w: RosterView, id: PeerId)
    requires
        v.wf(),
        w.wf(),
        v.members.len() == w.members.len(),
        forall|i: int|
            0 <= i < v.members.len() ==> (#[trigger] v.members[i]).peer_id@
                == w.members[i].peer_id@,
        forall|i: int|
            0 <= i < v.members.len() && (#[trigger] v.members[i]).peer_id@ == id@
                ==> v.members[i].role == w.members[i].role,
    ensures
        v.role_of(id) == w.role_of(id),
{
    if exists|i: int| is_at(v.members, id, i) {
        let i = choose|i: int| is_at(v.members, id, i);
        assert(is_at(w.members, id, i));
        lemma_role_at(v, id, i);
        lemma_role_at(w, id, i);
    } else if exists|i: int| is_at(w.members, id, i) {
        let i = choose|i: int| is_at(w.members, id, i);
        assert(v.members[i].peer_id@ == w.members[i].peer_id@);
        assert(is_at(v.members, id, i));
    }
}

/// Nobody gains a role from an actor without authority over it: whoever adds
/// a member outranks the role given, whoever removes one or changes its role
/// outranks the role that it had, and only a master makes admins.
pub proof fn law_changes_need_authority(
    v: RosterView,
    actor: PeerId,
    target: PeerId,
    role: GroupRole,
)
    requires
        v.wf(),
    ensures
        v.add_outcome(actor, target, role) is Ok ==> {
            &&& v.role_of(actor) is Some
            &&& v.role_of(actor)->0.manages(role)
            &&& role is Admin ==> v.role_of(actor)->0 is Master
        },
        v.remove_outcome(actor, target) is Ok ==> {
            &&& v.role_of(actor) is Some
            &&& v.role_of(target) is Some
            &&& v.role_of(actor)->0.manages(v.role_of(target)->0)
        },
        v.change_outcome(actor, target, role) is Ok ==> {
            &&& v.role_of(actor) is Some
            &&& v.role_of(target) is Some
            &&& v.role_of(actor)->0.manages(v.role_of(target)->0)
            &&& role is Admin ==> v.role_of(actor)->0 is Master
        },
{
}

/// No operation leaves a group without a master or with two: every roster that
/// an operation gives is well-formed.
pub proof fn law_exactly_one_master(
    v: RosterView,
    actor: PeerId,
    target: PeerId,
    role: GroupRole,
)
    requires
        v.wf(),
    ensures
        v.add_outcome(actor, target, role) matches Ok(w) ==> w.wf(),
        v.remove_outcome(actor, target) matches Ok(w) ==> w.wf(),
        v.change_outcome(actor, target, role) matches Ok(w) ==> w.wf(),
        v.transfer_outcome(actor, target) matches Ok(w) ==> w.wf(),
{
    if v.add_outcome(actor, target, role) is Ok {
        lemma_joined_wf(v, target, role);
    }
    match place_of(v.members, target) {
        Some(i) => {
            assert(is_at(v.members, target, i));
            if v.remove_outcome(actor, target) is Ok {
                lemma_removed_wf(v, i);
            }
            if v.change_outcome(actor, target, role) is Ok {
                lemma_changed_wf(v, i, role);
            }
            match place_of(v.members, actor) {
                Some(j) => {
                    assert(is_at(v.members, actor, j));
                    if v.transfer_outcome(actor, target) is Ok {
                        assert(is_master_at(v.members, j));
                        lemma_transferred_wf(v, j, i);
                    }
                },
                None => {},
            }
        },
        None => {},
    }
}

/// Two members stand in a list, the one before the other.
spec fn in_turn(members: Seq<GroupMember>, a: GroupMember, b: GroupMember) -> bool {
    exists|i: int, j: int|
        0 <= i < j < members.len() && #[trigger] members[i] == a && #[trigger] members[j] == b
}

/// A selection keeps the order.
proof fn lemma_selection_in_turn(members: Seq<GroupMember>, role: GroupRole)
    ensures
        forall|i: int, j: int|
            0 <= i < j < members.filter(has_role(role)).len() ==> in_turn(
                members,
                #[trigger] members.filter(has_role(role))[i],
                #[trigger] members.filter(has_role(role))[j],
            ),
    decreases members.len(),
{
    reveal(Seq::filter);
    let selected = members.filter(has_role(role));
    if members.len() > 0 {
        let start = members.drop_last();
        let first = start.filter(has_role(role));
        lemma_selection_in_turn(start, role);
        assert forall|i: int, j: int| 0 <= i < j < selected.len() implies in_turn(
            members,
            #[trigger] selected[i],
            #[trigger] selected[j],
        ) by {
            if j < first.len() {
                assert(in_turn(start, first[i], first[j]));
                let (a, b) = choose|a: int, b: int|
                    0 <= a < b < start.len() && #[trigger] start[a] == first[i]
                        && #[trigger] start[b] == first[j];
                assert(members[a] == selected[i] && members[b] == selected[j]);
            } else {
                assert(first.contains(first[i]));
                start.lemma_filter_contains_rev(has_role(role), first[i]);
                let a = choose|a: int| 0 <= a < start.len() && start[a] == first[i];
                assert(members[a] == selected[i]);
                assert(members[members.len() - 1] == selected[j]);
            }
        }
    }
}

/// The members, and those with one role, are listed once each in the order in
/// which they joined: join numbers rise strictly, as long as the counter of
/// joins is not full. With one role are exactly the members that have it.
pub proof fn law_members_in_join_order(v: RosterView, role: GroupRole, i: int, j: int)
    requires
        v.wf(),
        0 <= i < j,
    ensures
        j < v.members.len() ==> {
            &&& joined_before(v.members[i], v.members[j])
            &&& v.next_seq < u64::MAX ==> v.members[i].join_seq < v.members[j].join_seq
            &&& v.members[i].peer_id@ != v.members[j].peer_id@
        },
        j < v.members.filter(has_role(role)).len() ==> {
            let selected = v.members.filter(has_role(role));
            &&& joined_before(selected[i], selected[j])
            &&& v.next_seq < u64::MAX ==> selected[i].join_seq < selected[j].join_seq
            &&& selected[i].peer_id@ != selected[j].peer_id@
        },
        forall|m: GroupMember| #[trigger]
            v.members.filter(has_role(role)).contains(m) <==> v.members.contains(m) && m.role
                == role,
{
    let selected = v.members.filter(has_role(role));
    lemma_selection_in_turn(v.members, role);
    if j < selected.len() {
        assert(in_turn(v.members, selected[i], selected[j]));
    }
    assert forall|m: GroupMember| #[trigger] selected.contains(m) <==> v.members.contains(m)
        && m.role == role by {
        if selected.contains(m) {
            let k = choose|k: int| 0 <= k < selected.len() && selected[k] == m;
            v.members.lemma_filter_pred(has_role(role), k);
            v.members.lemma_filter_contains_rev(has_role(role), m);
        }
        if v.members.contains(m) && m.role == role {
            let k = choose|k: int| 0 <= k < v.members.len() && v.members[k] == m;
            v.members.lemma_filter_contains(has_role(role), k);
        }
    }
}

/// There is one member to be listed with the master's role: the master.
pub proof fn law_one_master_is_listed(v: RosterView, i: int)
    requires
        v.wf(),
        is_master_at(v.members, i),
    ensures
        v.members.filter(has_role(GroupRole::Master)) == seq![v.members[i]],
{
    let masters = v.members.filter(has_role(GroupRole::Master));
    lemma_selection_in_turn(v.members, GroupRole::Master);
    v.members.lemma_filter_contains(has_role(GroupRole::Master), i);
    if masters.len() > 1 {
        assert(in_turn(v.members, masters[0], masters[1]));
        let (a, b) = choose|a: int, b: int|
            0 <= a < b < v.members.len() && #[trigger] v.members[a] == masters[0]
                && #[trigger] v.members[b] == masters[1];
        v.members.lemma_filter_pred(has_role(GroupRole::Master), 0);
        v.members.lemma_filter_pred(has_role(GroupRole::Master), 1);
        assert(is_master_at(v.members, a) && is_master_at(v.members, b));
    }
    assert(masters == seq![v.members[i]]);
}

/// A transfer swaps nothing else: the target becomes master, the old master an
/// admin (unless it handed the group to itself), and all others keep their
/// roles.
pub proof fn law_transfer_moves_master(
    v: RosterView,
    current: PeerId,
    next: PeerId,
    w: RosterView,
    other: PeerId,
)
    requires
        v.wf(),
        v.transfer_outcome(current, next) == Ok::<RosterView, GroupError>(w),
    ensures
        w.role_of(next) == Some(GroupRole::Master),
        current@ != next@ ==> w.role_of(current) == Some(GroupRole::Admin),
        other@ != current@ && other@ != next@ ==> w.role_of(other) == v.role_of(other),
{
    let i = place_of(v.members, current)->0;
    let j = place_of(v.members, next)->0;
    assert(is_at(v.members, current, i));
    assert(is_at(v.members, next, j));
    law_exactly_one_master(v, current, next, GroupRole::Reader);
    assert(is_at(w.members, next, j));
    lemma_role_at(w, next, j);
    assert(is_at(w.members, current, i));
    lemma_role_at(w, current, i);
    if other@ != current@ && other@ != next@ {
        lemma_role_kept(v, w, other);
    }
}

/// A changed role is the new one, and all others keep their roles.
pub proof fn law_change_touches_one_member(
    v: RosterView,
    actor: PeerId,
    target: PeerId,
    role: GroupRole,
    w: RosterView,
    other: PeerId,
)
    requires
        v.wf(),
        v.change_outcome(actor, target, role) == Ok::<RosterView, GroupError>(w),
    ensures
        w.role_of(target) == Some(role),
        other@ != target@ ==> w.role_of(other) == v.role_of(other),
{
    let i = place_of(v.members, target)->0;
    assert(is_at(v.members, target, i));
    law_exactly_one_master(v, actor, target, role);
    assert(is_at(w.members, target, i));
    lemma_role_at(w, target, i);
    if other@ != target@ {
        lemma_role_kept(v, w, other);
    }
}

/// Removal undoes addition: the actor who added a member can remove it, and
/// the members are then as before.
pub proof fn law_remove_undoes_add(
    v: RosterView,
    actor: PeerId,
    id: PeerId,
    role: GroupRole,
    w: RosterView,
)
    requires
        v.wf(),
        v.add_outcome(actor, id, role) == Ok::<RosterView, GroupError>(w),
    ensures
        w.role_of(id) == Some(role),
        w.remove_outcome(actor, id) == Ok::<RosterView, GroupError>(
            (RosterView { members: v.members, ..w }),
        ),
{
    lemma_joined_wf(v, id, role);
    let n = v.members.len() as int;
    let i = place_of(v.members, actor)->0;
    assert(is_at(v.members, actor, i));
    assert(is_at(w.members, actor, i));
    lemma_place(w, actor, i);
    assert(w.members.remove(n) == v.members);
}

/// Who manages whom: a master everyone but a master, an admin mirrors and
/// readers, and others nobody.
pub proof fn law_who_manages_whom(role: GroupRole)
    ensures
        GroupRole::Master.manages(role) <==> !(role is Master),
        GroupRole::Admin.manages(role) <==> role is Mirror || role is Reader,
        !GroupRole::Mirror.manages(role),
        !GroupRole::Reader.manages(role),
        role.name() == (match role {
            GroupRole::Master => "master"@,
            GroupRole::Admin => "admin"@,
            GroupRole::Mirror => "mirror"@,
            GroupRole::Reader => "reader"@,
        }),
{
}

/// A member's role is that of the entry with its identity, and a peer without
/// such an entry has none.
pub proof fn law_member_is_found(v: RosterView, id: PeerId, i: int)
    requires
        v.wf(),
        0 <= i < v.members.len(),
    ensures
        v.members[i].peer_id@ == id@ ==> v.role_of(id) == Some(v.members[i].role),
        v.role_of(id) is None ==> v.members[i].peer_id@ != id@,
        v.role_of(id) matches Some(role) ==> exists|k: int|
            0 <= k < v.members.len() && (#[trigger] v.members[k]).peer_id@ == id@
                && v.members[k].role == role,
{
    if v.members[i].peer_id@ == id@ {
        assert(is_at(v.members, id, i));
        lemma_place(v, id, i);
    }
    if v.role_of(id) is Some {
        let k = place_of(v.members, id)->0;
        assert(is_at(v.members, id, k));
    }
}

/// What adding comes to. Nobody is added as a master. A master adds anyone else,
/// an admin mirrors and readers; the new member comes last, under the next
/// number, and nothing else changes. Refused are strangers, members without the
/// privilege, peers that are members already, and any peer once there are 500
/// members.
pub proof fn law_adding(v: RosterView, actor: PeerId, id: PeerId, role: GroupRole, a: int, i: int)
    requires
        v.wf(),
    ensures
        role is Master ==> v.add_outcome(actor, id, role) == Err::<RosterView, GroupError>(
            GroupError::MultipleMasters,
        ),
        !(role is Master) && v.role_of(actor) is None ==> v.add_outcome(actor, id, role) == Err::<
            RosterView,
            GroupError,
        >((GroupError::NotMember { peer_id: actor })),
        0 <= a < v.members.len() && v.members[a].peer_id@ == actor@ ==> {
            let outcome = v.add_outcome(actor, id, role);
            let by = v.members[a].role;
            let may = by is Master && !(role is Master) || by is Admin && (role is Mirror
                || role is Reader);
            &&& role is Admin && !(by is Master) ==> outcome == Err::<RosterView, GroupError>(
                GroupError::OnlyMasterCanPromoteAdmin,
            )
            &&& (by is Mirror || by is Reader) && (role is Mirror || role is Reader) ==> outcome
                == Err::<RosterView, GroupError>(
                GroupError::InsufficientPrivilege { actor_role: by, target_role: role },
            )
            &&& may && 0 <= i < v.members.len() && v.members[i].peer_id@ == id@ ==> outcome == Err::<
                RosterView,
                GroupError,
            >(GroupError::AlreadyMember { peer_id: id, existing_role: v.members[i].role })
            &&& may && v.role_of(id) is None && v.members.len() == 500 ==> outcome == Err::<
                RosterView,
                GroupError,
            >(GroupError::GroupFull { max: 500 })
            &&& may && v.role_of(id) is None && v.members.len() < 500 ==> (outcome matches Ok(w)
                && w.members.len() == v.members.len() + 1 && w.members.drop_last() == v.members
                && w.members.last().peer_id == id && w.members.last().role == role
                && w.members.last().join_seq == v.next_seq && w.network_id == v.network_id && (
            v.next_seq < u64::MAX ==> w.next_seq == v.next_seq + 1) && (v.next_seq == u64::MAX
                ==> w.next_seq == u64::MAX))
        },
{
    if 0 <= a < v.members.len() && v.members[a].peer_id@ == actor@ {
        law_member_is_found(v, actor, a);
    }
    if 0 <= i < v.members.len() && v.members[i].peer_id@ == id@ {
        law_member_is_found(v, id, i);
    }
    if v.add_outcome(actor, id, role) is Ok {
        assert(v.joined(id, role).members.drop_last() == v.members);
    }
}

/// What removing comes to. A master removes anyone but itself, an admin mirrors
/// and readers; the others move up, and nothing else changes. Refused are
/// strangers on either side, members without the privilege, and the removal of
/// the master.
pub proof fn law_removing(v: RosterView, actor: PeerId, target: PeerId, a: int, i: int)
    requires
        v.wf(),
    ensures
        v.role_of(target) is None ==> v.remove_outcome(actor, target) == Err::<
            RosterView,
            GroupError,
        >((GroupError::NotMember { peer_id: target })),
        0 <= i < v.members.len() && v.members[i].peer_id@ == target@ ==> {
            let outcome = v.remove_outcome(actor, target);
            let of = v.members[i].role;
            &&& of is Master ==> outcome == Err::<RosterView, GroupError>(
                GroupError::CannotRemoveMaster,
            )
            &&& !(of is Master) && v.role_of(actor) is None ==> outcome == Err::<
                RosterView,
                GroupError,
            >(GroupError::NotMember { peer_id: actor })
            &&& !(of is Master) && 0 <= a < v.members.len() && v.members[a].peer_id@ == actor@ ==> {
                let by = v.members[a].role;
                let may = by is Master || by is Admin && !(of is Admin);
                &&& !may ==> outcome == Err::<RosterView, GroupError>(
                    GroupError::InsufficientPrivilege { actor_role: by, target_role: of },
                )
                &&& may ==> (outcome matches Ok(w) && w.members == v.members.take(i)
                    + v.members.skip(i + 1) && w.network_id == v.network_id && w.next_seq
                    == v.next_seq)
            }
        },
{
    if 0 <= a < v.members.len() && v.members[a].peer_id@ == actor@ {
        law_member_is_found(v, actor, a);
    }
    if 0 <= i < v.members.len() && v.members[i].peer_id@ == target@ {
        assert(is_at(v.members, target, i));
        lemma_place(v, target, i);
        assert(v.members.remove(i) == v.members.take(i) + v.members.skip(i + 1));
    }
}

/// What changing a role comes to. A master changes the role of anyone but itself,
/// an admin that of mirrors and readers, though not to admin; nobody becomes
/// master so. Only the role of the one entry changes.
pub proof fn law_changing_roles(
    v: RosterView,
    actor: PeerId,
    target: PeerId,
    role: GroupRole,
    a: int,
    i: int,
)
    requires
        v.wf(),
    ensures
        v.role_of(target) is None ==> v.change_outcome(actor, target, role) == Err::<
            RosterView,
            GroupError,
        >((GroupError::NotMember { peer_id: target })),
        0 <= i < v.members.len() && v.members[i].peer_id@ == target@ ==> {
            let outcome = v.change_outcome(actor, target, role);
            let of = v.members[i].role;
            &&& of is Master ==> outcome == Err::<RosterView, GroupError>(
                GroupError::CannotDemoteMaster,
            )
            &&& !(of is Master) && role is Master ==> outcome == Err::<RosterView, GroupError>(
                GroupError::MultipleMasters,
            )
            &&& !(of is Master) && !(role is Master) && v.role_of(actor) is None ==> outcome
                == Err::<RosterView, GroupError>(GroupError::NotMember { peer_id: actor })
            &&& !(of is Master) && !(role is Master) && 0 <= a < v.members.len()
                && v.members[a].peer_id@ == actor@ ==> {
                let by = v.members[a].role;
                let may = by is Master || by is Admin && !(of is Admin);
                &&& role is Admin && !(by is Master) ==> outcome == Err::<RosterView, GroupError>(
                    GroupError::OnlyMasterCanPromoteAdmin,
                )
                &&& !(role is Admin) && !may ==> outcome == Err::<RosterView, GroupError>(
                    GroupError::InsufficientPrivilege { actor_role: by, target_role: of },
                )
                &&& may && (role is Admin ==> by is Master) ==> (outcome matches Ok(w)
                    && w.members.len() == v.members.len() && w.members[i].role == role
                    && w.members[i].peer_id == v.members[i].peer_id && w.members[i].join_seq
                    == v.members[i].join_seq && (a != i ==> w.members[a] == v.members[a])
                    && w.network_id == v.network_id && w.next_seq == v.next_seq)
            }
        },
{
    if 0 <= a < v.members.len() && v.members[a].peer_id@ == actor@ {
        law_member_is_found(v, actor, a);
    }
    if 0 <= i < v.members.len() && v.members[i].peer_id@ == target@ {
        assert(is_at(v.members, target, i));
        lemma_place(v, target, i);
    }
}

/// What a transfer comes to. The master, and no one else, hands its role to a
/// member and becomes an admin; both keep their places and numbers.
pub proof fn law_transferring(v: RosterView, current: PeerId, next: PeerId, a: int, i: int)
    requires
        v.wf(),
    ensures
        v.role_of(current) is None ==> v.transfer_outcome(current, next) == Err::<
            RosterView,
            GroupError,
        >((GroupError::NotMember { peer_id: current })),
        0 <= a < v.members.len() && v.members[a].peer_id@ == current@ ==> {
            let outcome = v.transfer_outcome(current, next);
            let by = v.members[a].role;
            &&& !(by is Master) ==> outcome == Err::<RosterView, GroupError>(
                GroupError::InsufficientPrivilege {
                    actor_role: by,
                    target_role: GroupRole::Master,
                },
            )
            &&& by is Master && v.role_of(next) is None ==> outcome == Err::<
                RosterView,
                GroupError,
            >(GroupError::NotMember { peer_id: next })
            &&& by is Master && 0 <= i < v.members.len() && v.members[i].peer_id@ == next@ ==> (
            outcome matches Ok(w) && w.members.len() == v.members.len() && w.members[i].role
                is Master && (a != i ==> w.members[a].role is Admin) && w.members[i].peer_id
                == v.members[i].peer_id && w.members[i].join_seq == v.members[i].join_seq
                && w.members[a].peer_id == v.members[a].peer_id && w.members[a].join_seq
                == v.members[a].join_seq && w.network_id == v.network_id && w.next_seq
                == v.next_seq)
        },
{
    if 0 <= a < v.members.len() && v.members[a].peer_id@ == current@ {
        assert(is_at(v.members, current, a));
        lemma_place(v, current, a);
    }
    if 0 <= i < v.members.len() && v.members[i].peer_id@ == next@ {
        assert(is_at(v.members, next, i));
        lemma_place(v, next, i);
    }
}

/// A peer is shown by the first 8 bytes of its identity, two hexadecimal digits
/// each, and an ellipsis.
pub proof fn law_shown_peer(id: PeerId, i: int)
    requires
        0 <= i < 8,
    ensures
        shown_peer(id).len() == 17,
        shown_peer(id)[2 * i] == hex_char(id@[i] / 16),
        shown_peer(id)[2 * i + 1] == hex_char(id@[i] % 16),
        shown_peer(id)[16] == '\u{2026}',
{
    id.lemma_len();
    crate::text::law_hexadecimal(id@.take(8), i, 0, '0');
}

} // verus!
