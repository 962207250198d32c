//! Reconciling a member's personal color role: pick its rank, find it by name
//! or create it, and attach it to the member.
use crate::color::{decimal_text, push_decimal, Rgb};
use crate::session::{Session, SessionState};
use vstd::prelude::*;

verus! {

/// A role of a guild, as the directory reports it.
#[derive(Clone, Debug, PartialEq, Eq)]
pub struct RoleRecord {
    pub id: u64,
    pub name: String,
    pub color: Rgb,
    pub hoist: bool,
    pub mentionable: bool,
    pub permissions: u64,
    pub position: u16,
    pub managed: bool,
}

/// The attributes that a create or an edit of a role writes.
#[derive(Clone, Debug, PartialEq, Eq)]
pub struct RoleEdit {
    pub name: String,
    pub color: Rgb,
    pub hoist: bool,
    pub mentionable: bool,
    pub permissions: u64,
    pub position: u16,
    pub audit_reason: String,
}

/// What a role is, as contracts speak of it.
pub struct RoleView {
    pub id: u64,
    pub name: Seq<char>,
    pub color: Rgb,
    pub hoist: bool,
    pub mentionable: bool,
    pub permissions: u64,
    pub position: u16,
    pub managed: bool,
}

/// What a create or an edit writes, as contracts speak of it.
pub struct EditView {
    pub name: Seq<char>,
    pub color: Rgb,
    pub hoist: bool,
    pub mentionable: bool,
    pub permissions: u64,
    pub position: u16,
    pub audit_reason: Seq<char>,
}

impl View for RoleRecord {
    type V = RoleView;

    open spec fn view(&self) -> RoleView {
        RoleView {
            id: self.id,
            name: self.name@,
            color: self.color,
            hoist: self.hoist,
            mentionable: self.mentionable,
            permissions: self.permissions,
            position: self.position,
            managed: self.managed,
        }
    }
}

impl View for RoleEdit {
    type V = EditView;

    open spec fn view(&self) -> EditView {
        EditView {
            name: self.name@,
            color: self.color,
            hoist: self.hoist,
            mentionable: self.mentionable,
            permissions: self.permissions,
            position: self.position,
            audit_reason: self.audit_reason@,
        }
    }
}

/// The views of a list of roles.
pub open spec fn roles_view(v: Seq<RoleRecord>) -> Seq<RoleView> {
    v.map_values(|r: RoleRecord| r@)
}

/// The name of a user's color role: `USER-` and the user id in decimal.
pub open spec fn role_name_of(user_id: u64) -> Seq<char> {
    "USER-"@ + decimal_text(user_id as nat)
}

/// The position of the first managed role in `roles`, or 0 where none is.
pub open spec fn reference_position_of(roles: Seq<RoleView>) -> u16
    decreases roles.len(),
{
    if roles.len() == 0 {
        0
    } else if roles[0].managed {
        roles[0].position
    } else {
        reference_position_of(roles.drop_first())
    }
}

/// The attributes that a user's color role is given.
pub open spec fn desired_of(user_id: u64, color: Rgb, position: u16) -> EditView {
    EditView {
        name: role_name_of(user_id),
        color,
        hoist: false,
        mentionable: false,
        permissions: 0,
        position,
        audit_reason: "User Changed Name Color"@,
    }
}

/// The index of the first role named `name` at or after `i`.
pub open spec fn find_from(roles: Seq<RoleView>, name: Seq<char>, i: int) -> Option<int>
    decreases roles.len() - i,
{
    if i < 0 || i >= roles.len() {
        None
    } else if roles[i].name == name {
        Some(i)
    } else {
        find_from(roles, name, i + 1)
    }
}

/// How many roles are named `name`.
pub open spec fn count_named(roles: Seq<RoleView>, name: Seq<char>) -> nat
    decreases roles.len(),
{
    if roles.len() == 0 {
        0
    } else {
        count_named(roles.drop_last(), name) + (if roles.last().name == name {
            1nat
        } else {
            0nat
        })
    }
}

/// `r` after an edit: the written attributes change; id and managed flag stay.
pub open spec fn edited(r: RoleView, e: EditView) -> RoleView {
    RoleView {
        id: r.id,
        name: e.name,
        color: e.color,
        hoist: e.hoist,
        mentionable: e.mentionable,
        permissions: e.permissions,
        position: e.position,
        managed: r.managed,
    }
}

/// A new role with the edit's attributes and id `id`.
pub open spec fn created(e: EditView, id: u64) -> RoleView {
    RoleView {
        id,
        name: e.name,
        color: e.color,
        hoist: e.hoist,
        mentionable: e.mentionable,
        permissions: e.permissions,
        position: e.position,
        managed: false,
    }
}

/// The roles after reconciling against `e`: the first role with its name is
/// edited in place, or else a role is created with id `id`.
pub open spec fn synced(roles: Seq<RoleView>, e: EditView, id: u64) -> Seq<RoleView> {
    match find_from(roles, e.name, 0) {
        Some(i) => roles.update(i, edited(roles[i], e)),
        None => roles.push(created(e, id)),
    }
}

/// A member's roles after attaching `id`: unchanged where it is there already.
pub open spec fn attached(member: Seq<u64>, id: u64) -> Seq<u64> {
    if member.contains(id) {
        member
    } else {
        member.push(id)
    }
}

/// How the reconciliation goes for one guild.
#[derive(Clone, Copy, Debug, PartialEq, Eq, Structural)]
pub enum SyncPlan {
    /// Edit the role at this index of the guild's role list.
    Edit { index: usize },
    /// No role has the name yet: create one.
    Create,
}

/// Why a reconciliation did not complete.
#[derive(Clone, Copy, Debug, PartialEq, Eq, Structural)]
pub enum SyncError {
    /// The directory has no role id left to give.
    IdsExhausted,
}

/// The name of a user's color role.
pub fn role_name(user_id: u64) -> (s: String)
    ensures
        s@ == role_name_of(user_id),
{
    let mut s = String::from_str("USER-");
    push_decimal(&mut s, user_id);
    s
}

/// The rank a color role is placed at: that of the first managed role among
/// the bot's own roles, unmodified, or 0 where it has none.
pub fn reference_position(bot_roles: &Vec<RoleRecord>) -> (p: u16)
    ensures
        p == reference_position_of(roles_view(bot_roles@)),
{
    let mut i: usize = 0;
    assert(roles_view(bot_roles@).subrange(0, bot_roles@.len() as int) =~= roles_view(bot_roles@));
    while i < bot_roles.len()
        invariant
            0 <= i <= bot_roles@.len(),
            reference_position_of(roles_view(bot_roles@)) == reference_position_of(
                roles_view(bot_roles@).subrange(i as int, bot_roles@.len() as int),
            ),
        decreases bot_roles@.len() - i,
    {
        let ghost rest = roles_view(bot_roles@).subrange(i as int, bot_roles@.len() as int);
        if bot_roles[i].managed {
            return bot_roles[i].position;
        }
        assert(rest.drop_first() =~= roles_view(bot_roles@).subrange(
            i + 1,
            bot_roles@.len() as int,
        ));
        i += 1;
    }
    0
}

/// The attributes that `user_id`'s color role is given, at `position`.
pub fn desired_role(user_id: u64, color: Rgb, position: u16) -> (e: RoleEdit)
    ensures
        e@ == desired_of(user_id, color, position),
{
    RoleEdit {
        name: role_name(user_id),
        color,
        hoist: false,
        mentionable: false,
        permissions: 0,
        position,
        audit_reason: String::from_str("User Changed Name Color"),
    }
}

/// The index of the first role named `name`, if any.
pub fn find_role_named(roles: &Vec<RoleRecord>, name: &String) -> (r: Option<usize>)
    ensures
        match r {
            Some(i) => find_from(roles_view(roles@), name@, 0) == Some(i as int),
            None => find_from(roles_view(roles@), name@, 0) is None,
        },
{
    let ghost v = roles_view(roles@);
    let mut i: usize = 0;
    while i < roles.len()
        invariant
            0 <= i <= roles@.len(),
            v == roles_view(roles@),
            find_from(v, name@, 0) == find_from(v, name@, i as int),
        decreases roles@.len() - i,
    {
        if roles[i].name == *name {
            return Some(i);
        }
        i += 1;
    }
    None
}

/// Whether the guild's role named for `user_id` is edited, or one created.
pub fn plan_sync(roles: &Vec<RoleRecord>, user_id: u64) -> (p: SyncPlan)
    ensures
        match p {
            SyncPlan::Edit { index } => find_from(roles_view(roles@), role_name_of(user_id), 0)
                == Some(index as int),
            SyncPlan::Create => find_from(roles_view(roles@), role_name_of(user_id), 0) is None,
        },
{
    let name = role_name(user_id);
    match find_role_named(roles, &name) {
        Some(i) => SyncPlan::Edit { index: i },
        None => SyncPlan::Create,
    }
}

/// Gives a member a role; a role the member holds already is left alone.
pub fn attach_role(member: &mut Vec<u64>, id: u64)
    ensures
        final(member)@ == attached(old(member)@, id),
{
    let mut i: usize = 0;
    while i < member.len()
        invariant
            0 <= i <= member@.len(),
            member@ == old(member)@,
            forall|j: int| 0 <= j < i ==> member@[j] != id,
        decreases member@.len() - i,
    {
        if member[i] == id {
            assert(member@.contains(id));
            return;
        }
        i += 1;
    }
    member.push(id);
}

/// Attaching is idempotent and keeps set semantics: attaching a role the member
/// holds changes nothing, a second attach is a no-op, and a role list without
/// repeats stays without repeats.
pub proof fn lemma_attach_idempotent(member: Seq<u64>, id: u64)
    ensures
        member.contains(id) ==> attached(member, id) == member,
        attached(attached(member, id), id) == attached(member, id),
        attached(member, id).to_set() == member.to_set().insert(id),
        member.no_duplicates() ==> attached(member, id).no_duplicates(),
{
    if !member.contains(id) {
        let m2 = member.push(id);
        assert(m2[member.len() as int] == id);
        assert(m2.contains(id));
        member.lemma_push_to_set_commute(id);
        if member.no_duplicates() {
            assert forall|a: int, b: int| 0 <= a < m2.len() && 0 <= b < m2.len() && a != b implies m2[a] != m2[b] by {
                if a < member.len() && b < member.len() {
                } else if a < member.len() {
                    assert(member.contains(m2[a]));
                } else {
                    assert(member.contains(m2[b]));
                }
            }
        }
    } else {
        assert(member.to_set().insert(id) =~= member.to_set());
    }
}

proof fn lemma_find_some(roles: Seq<RoleView>, name: Seq<char>, i: int)
    requires
        0 <= i,
    ensures
        match find_from(roles, name, i) {
            Some(k) => i <= k < roles.len() && roles[k].name == name,
            None => forall|j: int| i <= j < roles.len() ==> roles[j].name != name,
        },
    decreases roles.len() - i,
{
    if i < roles.len() && roles[i].name != name {
        lemma_find_some(roles, name, i + 1);
    }
}

proof fn lemma_count_absent(roles: Seq<RoleView>, name: Seq<char>)
    requires
        forall|j: int| 0 <= j < roles.len() ==> roles[j].name != name,
    ensures
        count_named(roles, name) == 0,
    decreases roles.len(),
{
    if roles.len() > 0 {
        lemma_count_absent(roles.drop_last(), name);
    }
}

proof fn lemma_count_push(roles: Seq<RoleView>, r: RoleView, name: Seq<char>)
    ensures
        count_named(roles.push(r), name) == count_named(roles, name) + (if r.name == name {
            1nat
        } else {
            0nat
        }),
{
    assert(roles.push(r).drop_last() =~= roles);
}

proof fn lemma_count_update(roles: Seq<RoleView>, i: int, r: RoleView, name: Seq<char>)
    requires
        0 <= i < roles.len(),
        roles[i].name == r.name,
    ensures
        count_named(roles.update(i, r), name) == count_named(roles, name),
    decreases roles.len(),
{
    let u = roles.update(i, r);
    if i == roles.len() - 1 {
        assert(u.drop_last() =~= roles.drop_last());
    } else {
        assert(u.drop_last() =~= roles.drop_last().update(i, r));
        lemma_count_update(roles.drop_last(), i, r, name);
    }
}

/// Reconciling changes only the roles named as the edit is: an existing one
/// keeps the count, a missing one is created once.
pub proof fn lemma_synced_count(roles: Seq<RoleView>, e: EditView, id: u64)
    ensures
        count_named(synced(roles, e, id), e.name) == (if count_named(roles, e.name) == 0 {
            1
        } else {
            count_named(roles, e.name)
        }),
        find_from(roles, e.name, 0) is Some ==> synced(roles, e, id).len() == roles.len(),
        find_from(roles, e.name, 0) is None ==> synced(roles, e, id).len() == roles.len() + 1,
{
    lemma_find_some(roles, e.name, 0);
    match find_from(roles, e.name, 0) {
        Some(i) => {
            lemma_count_update(roles, i, edited(roles[i], e), e.name);
            lemma_count_nonzero(roles, e.name, i);
        },
        None => {
            lemma_count_absent(roles, e.name);
            lemma_count_push(roles, created(e, id), e.name);
        },
    }
}

proof fn lemma_count_nonzero(roles: Seq<RoleView>, name: Seq<char>, i: int)
    requires
        0 <= i < roles.len(),
        roles[i].name == name,
    ensures
        count_named(roles, name) > 0,
    decreases roles.len(),
{
    if i < roles.len() - 1 {
        lemma_count_nonzero(roles.drop_last(), name, i);
    }
}

/// Identity by name: reconciling the same user's role twice in a row, from a
/// guild with at most one role of that name, leaves exactly one such role, and
/// the second run edits rather than adds.
pub proof fn lemma_sync_twice_single_role(
    roles: Seq<RoleView>,
    e1: EditView,
    e2: EditView,
    id1: u64,
    id2: u64,
)
    requires
        count_named(roles, e1.name) <= 1,
        e2.name == e1.name,
    ensures
        count_named(synced(synced(roles, e1, id1), e2, id2), e1.name) == 1,
        synced(synced(roles, e1, id1), e2, id2).len() == synced(roles, e1, id1).len(),
{
    let once = synced(roles, e1, id1);
    lemma_synced_count(roles, e1, id1);
    lemma_synced_count(once, e2, id2);
    lemma_find_some(once, e2.name, 0);
    if find_from(once, e2.name, 0) is None {
        lemma_count_absent(once, e2.name);
    }
}

/// An in-memory guild directory: its roles, and the next id it hands out.
pub struct GuildDirectory {
    pub roles: Vec<RoleRecord>,
    pub next_id: u64,
}

impl GuildDirectory {
    /// A directory holding `roles`, handing out ids from `next_id`.
    pub fn new(roles: Vec<RoleRecord>, next_id: u64) -> (d: GuildDirectory)
        ensures
            d.roles@ == roles@,
            d.next_id == next_id,
    {
        GuildDirectory { roles, next_id }
    }

    /// Writes `e` over the role at `index`, keeping its id and managed flag.
    pub fn edit_role(&mut self, index: usize, e: &RoleEdit)
        requires
            index < old(self).roles@.len(),
        ensures
            roles_view(final(self).roles@) == roles_view(old(self).roles@).update(
                index as int,
                edited(old(self).roles@[index as int]@, e@),
            ),
            final(self).next_id == old(self).next_id,
    {
        let record = RoleRecord {
            id: self.roles[index].id,
            name: e.name.clone(),
            color: e.color,
            hoist: e.hoist,
            mentionable: e.mentionable,
            permissions: e.permissions,
            position: e.position,
            managed: self.roles[index].managed,
        };
        let ghost before = self.roles@;
        self.roles.set(index, record);
        assert(roles_view(self.roles@) =~= roles_view(before).update(
            index as int,
            edited(before[index as int]@, e@),
        ));
    }

    /// Adds a role with the attributes of `e` under the next free id.
    pub fn create_role(&mut self, e: &RoleEdit) -> (r: Result<u64, SyncError>)
        ensures
            old(self).next_id == u64::MAX ==> r == Err::<u64, SyncError>(SyncError::IdsExhausted)
                && *final(self) == *old(self),
            old(self).next_id < u64::MAX ==> r == Ok::<u64, SyncError>(old(self).next_id)
                && roles_view(final(self).roles@) == roles_view(old(self).roles@).push(
                created(e@, old(self).next_id),
            ) && final(self).next_id == old(self).next_id + 1,
    {
        if self.next_id == u64::MAX {
            return Err(SyncError::IdsExhausted);
        }
        let id = self.next_id;
        let record = RoleRecord {
            id,
            name: e.name.clone(),
            color: e.color,
            hoist: e.hoist,
            mentionable: e.mentionable,
            permissions: e.permissions,
            position: e.position,
            managed: false,
        };
        let ghost before = self.roles@;
        self.roles.push(record);
        self.next_id = id + 1;
        assert(roles_view(self.roles@) =~= roles_view(before).push(created(e@, id)));
        Ok(id)
    }

    /// Reconciles `user_id`'s color role with `color`: ranks it by the bot's
    /// first managed role, edits the role of that name or creates it, then
    /// attaches it to the member. Returns the role's id.
    pub fn synchronize(
        &mut self,
        member: &mut Vec<u64>,
        user_id: u64,
        color: Rgb,
        bot_roles: &Vec<RoleRecord>,
    ) -> (r: Result<u64, SyncError>)
        ensures
            ({
                let e = desired_of(user_id, color, reference_position_of(roles_view(bot_roles@)));
                let before = roles_view(old(self).roles@);
                match find_from(before, e.name, 0) {
                    Some(i) => r == Ok::<u64, SyncError>(before[i].id)
                        && roles_view(final(self).roles@) == synced(before, e, old(self).next_id)
                        && final(self).next_id == old(self).next_id
                        && final(member)@ == attached(old(member)@, before[i].id),
                    None => if old(self).next_id == u64::MAX {
                        r == Err::<u64, SyncError>(SyncError::IdsExhausted)
                            && *final(self) == *old(self)
                            && final(member)@ == old(member)@
                    } else {
                        r == Ok::<u64, SyncError>(old(self).next_id)
                            && roles_view(final(self).roles@) == synced(before, e, old(self).next_id)
                            && final(self).next_id == old(self).next_id + 1
                            && final(member)@ == attached(old(member)@, old(self).next_id)
                    },
                }
            }),
    {
        let position = reference_position(bot_roles);
        let e = desired_role(user_id, color, position);
        proof {
            lemma_find_some(roles_view(self.roles@), e@.name, 0);
        }
        let plan = plan_sync(&self.roles, user_id);
        match plan {
            SyncPlan::Edit { index } => {
                assert(find_from(roles_view(self.roles@), e@.name, 0) == Some(index as int));
                let id = self.roles[index].id;
                assert(roles_view(self.roles@)[index as int] == self.roles@[index as int]@);
                let ghost before = roles_view(self.roles@);
                self.edit_role(index, &e);
                assert(roles_view(self.roles@) == synced(before, e@, self.next_id));
                attach_role(member, id);
                Ok(id)
            },
            SyncPlan::Create => {
                match self.create_role(&e) {
                    Ok(id) => {
                        attach_role(member, id);
                        Ok(id)
                    },
                    Err(err) => Err(err),
                }
            },
        }
    }

    /// Ends a session against this directory: a finalized session's color is
    /// synchronized to the user's role; any other session changes nothing.
    pub fn conclude(
        &mut self,
        session: &Session,
        member: &mut Vec<u64>,
        bot_roles: &Vec<RoleRecord>,
    ) -> (r: Result<Option<u64>, SyncError>)
        ensures
            session.state != SessionState::Finalized ==> r == Ok::<Option<u64>, SyncError>(None)
                && *final(self) == *old(self) && final(member)@ == old(member)@,
            session.state == SessionState::Finalized ==> ({
                let e = desired_of(
                    session.user_id,
                    session.color,
                    reference_position_of(roles_view(bot_roles@)),
                );
                let before = roles_view(old(self).roles@);
                let fails = find_from(before, e.name, 0) is None && old(self).next_id == u64::MAX;
                &&& fails ==> r == Err::<Option<u64>, SyncError>(SyncError::IdsExhausted)
                    && *final(self) == *old(self) && final(member)@ == old(member)@
                &&& !fails ==> r is Ok && r->Ok_0 is Some
                    && roles_view(final(self).roles@) == synced(before, e, old(self).next_id)
                    && final(member)@ == attached(old(member)@, r->Ok_0->0)
            }),
    {
        match session.finalized_color() {
            None => Ok(None),
            Some(color) => match self.synchronize(member, session.user_id, color, bot_roles) {
                Ok(id) => Ok(Some(id)),
                Err(e) => Err(e),
            },
        }
    }
}

} // verus!
