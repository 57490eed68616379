//! The projects that a client is told of.

use vstd::prelude::*;

use crate::auth_context::Authenticated;
use crate::json;
use crate::json::{Json, Members};
use crate::time;
use crate::time::Timestamp;

verus! {

/// What a client is told of a project.
#[derive(Debug)]
pub struct Project {
    pub id: String,
    pub name: String,
    pub created_at: String,
    pub updated_at: String,
    pub metadata: Json,
}

/// The projects of a client at the instant `now`: its own alone, under its name,
/// with nothing said of it.
pub fn get_projects(auth: &Authenticated, now: &Timestamp) -> (r: Vec<Project>)
    ensures
        r@.len() == 1,
        r@[0].id@ == auth.0.project_id@,
        r@[0].name@ == auth.0.project_id@,
        r@[0].created_at@ == time::rfc3339_name(now@.0, now@.1),
        r@[0].updated_at@ == time::rfc3339_name(now@.0, now@.1),
        r@[0].metadata@ == json::JsonModel::Object(Seq::empty()),
{
    broadcast use json::lemma_json_view;

    let now = now.to_rfc3339();
    let project_id = auth.project_id();
    let project = Project {
        id: project_id.to_owned(),
        name: project_id.to_owned(),
        created_at: now.clone(),
        updated_at: now,
        metadata: Json::Object(Members::new()),
    };
    let mut list: Vec<Project> = Vec::new();
    list.push(project);
    list
}

}
