use hex::color::Rgb;
use hex::roles::{
    attach_role, desired_role, find_role_named, plan_sync, reference_position, role_name,
    GuildDirectory, RoleRecord, SyncError, SyncPlan,
};

fn role(id: u64, name: &str, position: u16, managed: bool) -> RoleRecord {
    RoleRecord {
        id,
        name: name.to_string(),
        color: Rgb::new(0, 0, 0),
        hoist: true,
        mentionable: true,
        permissions: 8,
        position,
        managed,
    }
}

#[test]
fn role_name_is_user_prefix_and_decimal_id() {
    assert_eq!(role_name(42), "USER-42");
    assert_eq!(role_name(0), "USER-0");
    assert_eq!(role_name(u64::MAX), "USER-18446744073709551615");
}

#[test]
fn position_of_first_managed_role() {
    let bot = vec![role(1, "a", 3, false), role(2, "b", 5, true), role(3, "c", 9, true)];
    assert_eq!(reference_position(&bot), 5);
    assert_eq!(reference_position(&vec![role(1, "a", 3, false)]), 0);
    assert_eq!(reference_position(&Vec::new()), 0);
}

#[test]
fn desired_role_attributes() {
    let e = desired_role(42, Rgb::new(1, 2, 3), 5);
    assert_eq!(e.name, "USER-42");
    assert_eq!(e.color, Rgb::new(1, 2, 3));
    assert!(!e.hoist && !e.mentionable);
    assert_eq!(e.permissions, 0);
    assert_eq!(e.position, 5);
    assert_eq!(e.audit_reason, "User Changed Name Color");
}

#[test]
fn find_and_plan_by_name() {
    let roles = vec![role(1, "USER-4", 1, false), role(2, "USER-42", 2, false), role(3, "USER-42", 3, false)];
    assert_eq!(find_role_named(&roles, &"USER-42".to_string()), Some(1));
    assert_eq!(find_role_named(&roles, &"USER-5".to_string()), None);
    assert_eq!(plan_sync(&roles, 42), SyncPlan::Edit { index: 1 });
    assert_eq!(plan_sync(&roles, 5), SyncPlan::Create);
}

#[test]
fn attach_is_idempotent() {
    let mut member = vec![1, 2];
    attach_role(&mut member, 2);
    assert_eq!(member, vec![1, 2]);
    attach_role(&mut member, 3);
    attach_role(&mut member, 3);
    assert_eq!(member, vec![1, 2, 3]);
}

#[test]
fn second_sync_edits_the_same_role() {
    let bot = vec![role(9, "bot", 4, true)];
    let mut guild = GuildDirectory::new(vec![role(1, "everyone", 0, false)], 10);
    let mut member = vec![1];
    let first = guild.synchronize(&mut member, 42, Rgb::new(255, 0, 0), &bot).unwrap();
    let second = guild.synchronize(&mut member, 42, Rgb::new(0, 0, 255), &bot).unwrap();
    assert_eq!(first, second);
    let named: Vec<&RoleRecord> = guild.roles.iter().filter(|r| r.name == "USER-42").collect();
    assert_eq!(named.len(), 1);
    assert_eq!(named[0].color, Rgb::new(0, 0, 255));
    assert_eq!(named[0].position, 4);
    assert!(!named[0].hoist && !named[0].mentionable);
    assert_eq!(named[0].permissions, 0);
    assert_eq!(member, vec![1, first]);
    assert_eq!(guild.next_id, 11);
}

#[test]
fn sync_reuses_existing_role_and_keeps_id() {
    let mut guild = GuildDirectory::new(vec![role(5, "USER-42", 2, false)], 10);
    let mut member = Vec::new();
    let id = guild.synchronize(&mut member, 42, Rgb::new(1, 2, 3), &Vec::new()).unwrap();
    assert_eq!(id, 5);
    assert_eq!(guild.roles.len(), 1);
    assert_eq!(guild.roles[0].color, Rgb::new(1, 2, 3));
    assert_eq!(guild.roles[0].position, 0);
    assert_eq!(guild.next_id, 10);
}

#[test]
fn sync_without_free_id_fails() {
    let mut guild = GuildDirectory::new(Vec::new(), u64::MAX);
    let mut member = Vec::new();
    assert_eq!(guild.synchronize(&mut member, 42, Rgb::new(1, 2, 3), &Vec::new()), Err(SyncError::IdsExhausted));
    assert!(guild.roles.is_empty());
    assert!(member.is_empty());
}

#[test]
fn edit_and_create_role() {
    let mut guild = GuildDirectory::new(vec![role(5, "x", 2, true)], 10);
    let e = desired_role(1, Rgb::new(9, 9, 9), 3);
    guild.edit_role(0, &e);
    assert_eq!(guild.roles[0].id, 5);
    assert!(guild.roles[0].managed);
    assert_eq!(guild.roles[0].name, "USER-1");
    assert_eq!(guild.create_role(&e), Ok(10));
    assert_eq!(guild.roles.len(), 2);
    assert!(!guild.roles[1].managed);
}
