//! miyu's `config.jsonc`: the `mcp.servers` list that MCP packages are
//! registered in.

use vstd::prelude::*;
use crate::error::PmError;
use crate::json::{
    as_text, get, get_str, items_view, jget, json_view, key_index, key_index_from, key_position,
    lemma_items_view, lemma_key_index_from, lemma_members_view, lemma_set_member,
    lemma_set_member_twice, member, members_view, obj_set, put_member, set_key, set_member,
    take_member, JsonValue, JsonView,
};
use crate::text::{owned, str_eq};
use crate::types::{InstalledPkg, InstalledState};

verus! {

/// `{"enabled": true, "servers": []}`, the `mcp` section of a fresh config.
pub open spec fn default_mcp_section() -> JsonView {
    JsonView::Object(
        seq![("enabled"@, JsonView::Bool(true)), ("servers"@, JsonView::Array(seq![]))],
    )
}

/// The config that miyu starts from:
/// `{"config_version": 2, "mcp": {"enabled": true, "servers": []}}`.
pub open spec fn default_config_view() -> JsonView {
    JsonView::Object(seq![("config_version"@, JsonView::Number("2"@)), ("mcp"@, default_mcp_section())])
}

/// The config that miyu starts from.
pub fn default_config() -> (res: JsonValue)
    ensures
        res@ == default_config_view(),
{
    let mut fields: Vec<(String, JsonValue)> = Vec::new();
    fields.push((owned("config_version"), JsonValue::Number(owned("2"))));
    fields.push((owned("mcp"), default_mcp_value()));
    proof {
        lemma_members_view(fields@);
    }
    assert(members_view(fields@) =~= seq![("config_version"@, JsonView::Number("2"@)), ("mcp"@, default_mcp_section())]);
    JsonValue::Object(fields)
}

fn default_mcp_value() -> (res: JsonValue)
    ensures
        res@ == default_mcp_section(),
{
    let mut fields: Vec<(String, JsonValue)> = Vec::new();
    fields.push((owned("enabled"), JsonValue::Bool(true)));
    let empty: Vec<JsonValue> = Vec::new();
    proof {
        lemma_items_view(empty@);
    }
    assert(items_view(empty@) =~= Seq::<JsonView>::empty());
    fields.push((owned("servers"), JsonValue::Array(empty)));
    proof {
        lemma_members_view(fields@);
    }
    assert(members_view(fields@) =~= seq![("enabled"@, JsonView::Bool(true)), ("servers"@, JsonView::Array(seq![]))]);
    JsonValue::Object(fields)
}

/// The config with a default `mcp` section where it has none.
pub open spec fn with_mcp_section(v: JsonView) -> JsonView {
    if jget(v, "mcp"@) is None {
        obj_set(v, "mcp"@, default_mcp_section())
    } else {
        v
    }
}

/// `f` with member `k` added as `val` where `f` has no member `k`.
pub open spec fn add_if_absent(f: Seq<(Seq<char>, JsonView)>, k: Seq<char>, val: JsonView) -> Seq<
    (Seq<char>, JsonView),
> {
    if member(f, k) is None {
        f.push((k, val))
    } else {
        f
    }
}

/// An `mcp` section with `enabled: true` and `servers: []` added where
/// they are missing.
pub open spec fn completed_section(f: Seq<(Seq<char>, JsonView)>) -> Seq<(Seq<char>, JsonView)> {
    add_if_absent(
        add_if_absent(f, "enabled"@, JsonView::Bool(true)),
        "servers"@,
        JsonView::Array(seq![]),
    )
}

/// The config once its `mcp` section is there and complete; `None` when
/// `mcp` is not an object.
pub open spec fn prepared_config(v: JsonView) -> Option<JsonView> {
    let v1 = with_mcp_section(v);
    match jget(v1, "mcp"@) {
        Some(JsonView::Object(f)) => Some(obj_set(v1, "mcp"@, JsonView::Object(completed_section(f)))),
        _ => None,
    }
}

/// Make sure the config has an `mcp` object with `enabled` and `servers`.
/// A config that is neither `null` nor an object cannot be indexed by key:
/// the caller must not pass one.
pub fn mcp_enabled_mut(value: &mut JsonValue) -> (res: Result<(), PmError>)
    requires
        *old(value) is Null || *old(value) is Object,
    ensures
        prepared_config(old(value)@) matches Some(v2) ==> res is Ok && final(value)@ == v2,
        prepared_config(old(value)@) is None ==> (res matches Err(PmError::McpNotObject)
            && final(value)@ == old(value)@),
{
    if get(value, "mcp").is_none() {
        set_key(value, "mcp", default_mcp_value());
    }
    let ghost v1 = value@;
    assert(v1 == with_mcp_section(old(value)@)) by {
        if jget(old(value)@, "mcp"@) is None {
            assert(v1 == obj_set(old(value)@, "mcp"@, default_mcp_section()));
        }
    }
    proof {
        match old(value)@ {
            JsonView::Object(f) => {
                lemma_set_member(f, "mcp"@, default_mcp_section());
            },
            _ => {
                lemma_set_member(seq![], "mcp"@, default_mcp_section());
                assert(set_member(seq![], "mcp"@, default_mcp_section()) =~= seq![("mcp"@, default_mcp_section())]);
            },
        }
    }
    assert(jget(v1, "mcp"@) is Some);
    let mut taken = JsonValue::Null;
    core::mem::swap(value, &mut taken);
    match taken {
        JsonValue::Object(mut fields) => {
            let ghost f1 = members_view(fields@);
            proof {
                lemma_members_view(fields@);
                lemma_key_index_from(f1, "mcp"@, 0);
            }
            let i = match key_position(&fields, "mcp") {
                Some(i) => i,
                None => {
                    *value = JsonValue::Object(fields);
                    return Err(PmError::McpNotObject);
                },
            };
            let section = take_member(&mut fields, i);
            match section {
                JsonValue::Object(mut mf) => {
                    let ghost m0 = members_view(mf@);
                    assert(jget(v1, "mcp"@) == Some(JsonView::Object(m0)));
                    if key_position(&mf, "enabled").is_none() {
                        push_member(&mut mf, "enabled", JsonValue::Bool(true));
                    }
                    assert(members_view(mf@) == add_if_absent(m0, "enabled"@, JsonView::Bool(true)));
                    if key_position(&mf, "servers").is_none() {
                        push_member(&mut mf, "servers", empty_array());
                    }
                    assert(members_view(mf@) == completed_section(m0));
                    put_member(&mut fields, i, JsonValue::Object(mf));
                    *value = JsonValue::Object(fields);
                    assert(members_view(fields@) =~= set_member(f1, "mcp"@, JsonView::Object(completed_section(m0))));
                    Ok(())
                },
                other => {
                    put_member(&mut fields, i, other);
                    *value = JsonValue::Object(fields);
                    assert(members_view(fields@) =~= f1);
                    assert(jget(old(value)@, "mcp"@) is Some) by {
                        if jget(old(value)@, "mcp"@) is None {
                            assert(jget(v1, "mcp"@) == Some(default_mcp_section()));
                        }
                    }
                    Err(PmError::McpNotObject)
                },
            }
        },
        other => {
            *value = other;
            Err(PmError::McpNotObject)
        },
    }
}

/// Add member `k` with value `val` at the end of `fields`.
fn push_member(fields: &mut Vec<(String, JsonValue)>, k: &str, val: JsonValue)
    ensures
        members_view(final(fields)@) == members_view(old(fields)@).push((k@, val@)),
{
    let ghost vv = val@;
    fields.push((owned(k), val));
    proof {
        lemma_members_view(old(fields)@);
        lemma_members_view(fields@);
    }
    assert(members_view(fields@) =~= members_view(old(fields)@).push((k@, vv)));
}

/// `[]`
fn empty_array() -> (res: JsonValue)
    ensures
        res@ == JsonView::Array(seq![]),
{
    let empty: Vec<JsonValue> = Vec::new();
    proof {
        lemma_items_view(empty@);
    }
    assert(items_view(empty@) =~= Seq::<JsonView>::empty());
    JsonValue::Array(empty)
}

/// The `mcp.servers` entries, when `mcp.servers` is an array.
pub open spec fn servers_of(v: JsonView) -> Option<Seq<JsonView>> {
    match jget(v, "mcp"@) {
        Some(m) => match jget(m, "servers"@) {
            Some(JsonView::Array(a)) => Some(a),
            _ => None,
        },
        None => None,
    }
}

/// `v` with `mcp.servers` set to `s`.
pub open spec fn set_servers(v: JsonView, s: JsonView) -> JsonView {
    obj_set(v, "mcp"@, obj_set(jget(v, "mcp"@)->0, "servers"@, s))
}

/// Some installed record owns the server id `id`: it recorded that id.
pub open spec fn id_owned(s: Seq<InstalledPkg>, id: Seq<char>) -> bool {
    exists|i: int| 0 <= i < s.len() && ((#[trigger] s[i]).mcp_id matches Some(m) && m@ == id)
}

/// Whether some installed record recorded the server id `id`.
fn id_owned_exec(state: &InstalledState, id: &str) -> (res: bool)
    ensures
        res == id_owned(state.installed@, id@),
{
    let mut i: usize = 0;
    while i < state.installed.len()
        invariant
            i <= state.installed.len(),
            forall|k: int|
                0 <= k < i ==> !((#[trigger] state.installed@[k]).mcp_id matches Some(m) && m@
                    == id@),
        decreases state.installed.len() - i,
    {
        match &state.installed[i].mcp_id {
            Some(m) => {
                if str_eq(m.as_str(), id) {
                    return true;
                }
            },
            None => {},
        }
        i = i + 1;
    }
    false
}

/// Refuse to take the server id `id` when the config has an entry with it
/// that no installed record owns (one written by hand).
pub fn check_server_id(value: &JsonValue, id: &str, state: &InstalledState) -> (res: Result<
    (),
    PmError,
>)
    ensures
        res is Err <==> has_server(value@, id@) && !id_owned(state.installed@, id@),
        res matches Err(e) ==> (e matches PmError::EntryNotOwned { id: x } && x@ == id@),
{
    if has_mcp_server(value, id) && !id_owned_exec(state, id) {
        return Err(PmError::EntryNotOwned { id: owned(id) });
    }
    Ok(())
}

/// Registering `e` would change an entry that no installed record owns:
/// the config already has an entry with `e`'s id, and no record owns it.
pub open spec fn clashes_with_hand_written(v: JsonView, e: JsonView, s: Seq<InstalledPkg>) -> bool {
    entry_id(e) is Some && has_server(v, entry_id(e)->0) && !id_owned(s, entry_id(e)->0)
}

/// Register `entry` as `upsert_mcp_server` does, but leave alone an entry
/// with the same id that no installed record owns: such an entry was written
/// by hand, and is refused with `EntryNotOwned`, the config unchanged.
pub fn register_mcp_server(value: &mut JsonValue, entry: JsonValue, state: &InstalledState) -> (res:
    Result<bool, PmError>)
    requires
        *old(value) is Null || *old(value) is Object,
    ensures
        clashes_with_hand_written(old(value)@, entry@, state.installed@) ==> (res matches Err(
            PmError::EntryNotOwned { id },
        ) && id@ == entry_id(entry@)->0 && final(value)@ == old(value)@),
        !clashes_with_hand_written(old(value)@, entry@, state.installed@) ==> (res, final(value)@)
            == upsert_outcome(old(value)@, entry@),
{
    match get_str(&entry, "id") {
        Some(id) => {
            if has_mcp_server(value, id.as_str()) && !id_owned_exec(state, id.as_str()) {
                return Err(PmError::EntryNotOwned { id: id.clone() });
            }
        },
        None => {},
    }
    upsert_mcp_server(value, entry)
}

/// An entry that no installed record owns is never modified: where the
/// registration is not refused, each such entry stays as it was, at its
/// place in `mcp.servers`.
pub proof fn law_register_keeps_hand_written_entries(
    v: JsonView,
    e: JsonView,
    s: Seq<InstalledPkg>,
    k: int,
)
    requires
        v is Null || v is Object,
        !clashes_with_hand_written(v, e, s),
        upsert_outcome(v, e).0 is Ok,
        0 <= k < servers_or_empty(v).len(),
        entry_id(servers_or_empty(v)[k]) is Some,
        !id_owned(s, entry_id(servers_or_empty(v)[k])->0),
    ensures
        servers_of(upsert_outcome(v, e).1) matches Some(a) && k < a.len() && a[k]
            == servers_or_empty(v)[k],
{
    law_upsert_appends_or_replaces(v, e);
    let old_a = servers_or_empty(v);
    let id = entry_id(e)->0;
    if has_server(v, id) {
        lemma_server_index_from(old_a, id, 0);
        assert(servers_of(v) is Some);
        let j = server_index(old_a, id)->0;
        assert(j != k);
    }
}

/// The `id` of a server entry, when it is a string.
pub open spec fn entry_id(e: JsonView) -> Option<Seq<char>> {
    as_text(jget(e, "id"@))
}

/// The first entry at or after `i` whose `id` is `id`.
pub open spec fn server_index_from(a: Seq<JsonView>, id: Seq<char>, i: int) -> Option<int>
    decreases a.len() - i,
{
    if i < 0 || i >= a.len() {
        None
    } else if entry_id(a[i]) == Some(id) {
        Some(i)
    } else {
        server_index_from(a, id, i + 1)
    }
}

/// The first entry whose `id` is `id`.
pub open spec fn server_index(a: Seq<JsonView>, id: Seq<char>) -> Option<int> {
    server_index_from(a, id, 0)
}

/// `server_index_from` finds the first entry with the id.
pub proof fn lemma_server_index_from(a: Seq<JsonView>, id: Seq<char>, i: int)
    requires
        0 <= i,
    ensures
        server_index_from(a, id, i) matches Some(j) ==> i <= j < a.len() && entry_id(a[j]) == Some(
            id,
        ),
        server_index_from(a, id, i) is None <==> forall|m: int|
            i <= m < a.len() ==> entry_id(#[trigger] a[m]) != Some(id),
    decreases a.len() - i,
{
    if i < a.len() && entry_id(a[i]) != Some(id) {
        lemma_server_index_from(a, id, i + 1);
    }
}

/// A config whose `mcp` is an object that has a `servers` member.
pub open spec fn has_servers_member(v: JsonView) -> bool {
    &&& v is Object
    &&& jget(v, "mcp"@) matches Some(m) && m is Object && jget(m, "servers"@) is Some
}

/// The position of the first entry whose `id` is `id`.
fn server_position(servers: &Vec<JsonValue>, id: &str) -> (res: Option<usize>)
    ensures
        res matches Some(k) ==> server_index(items_view(servers@), id@) == Some(k as int),
        res is None ==> server_index(items_view(servers@), id@) is None,
{
    proof {
        lemma_items_view(servers@);
    }
    let ghost a = items_view(servers@);
    let mut k: usize = 0;
    while k < servers.len()
        invariant
            k <= servers.len(),
            a == items_view(servers@),
            a.len() == servers@.len(),
            forall|j: int| 0 <= j < servers@.len() ==> #[trigger] a[j] == json_view(servers@[j]),
            server_index(a, id@) == server_index_from(a, id@, k as int),
        decreases servers.len() - k,
    {
        let hit = match get_str(&servers[k], "id") {
            Some(s) => str_eq(s.as_str(), id),
            None => false,
        };
        if hit {
            return Some(k);
        }
        k = k + 1;
    }
    None
}

/// Take the `mcp.servers` array out of a config that has one, leaving
/// `null` in its place.
fn take_servers(value: &mut JsonValue) -> (res: Result<Vec<JsonValue>, PmError>)
    requires
        has_servers_member(old(value)@),
    ensures
        servers_of(old(value)@) matches Some(a) ==> (res matches Ok(vs) && items_view(vs@) == a
            && final(value)@ == set_servers(old(value)@, JsonView::Null)),
        servers_of(old(value)@) is None ==> (res matches Err(PmError::ServersNotArray)
            && final(value)@ == old(value)@),
{
    let mut taken = JsonValue::Null;
    core::mem::swap(value, &mut taken);
    match taken {
        JsonValue::Object(mut fields) => {
            let ghost f1 = members_view(fields@);
            proof {
                lemma_members_view(fields@);
                lemma_key_index_from(f1, "mcp"@, 0);
            }
            let i = match key_position(&fields, "mcp") {
                Some(i) => i,
                None => {
                    *value = JsonValue::Object(fields);
                    return Err(PmError::ServersNotArray);
                },
            };
            let section = take_member(&mut fields, i);
            match section {
                JsonValue::Object(mut mf) => {
                    let ghost m0 = members_view(mf@);
                    proof {
                        lemma_members_view(mf@);
                        lemma_key_index_from(m0, "servers"@, 0);
                    }
                    let j = match key_position(&mf, "servers") {
                        Some(j) => j,
                        None => {
                            put_member(&mut fields, i, JsonValue::Object(mf));
                            *value = JsonValue::Object(fields);
                            return Err(PmError::ServersNotArray);
                        },
                    };
                    let list = take_member(&mut mf, j);
                    match list {
                        JsonValue::Array(items) => {
                            put_member(&mut fields, i, JsonValue::Object(mf));
                            *value = JsonValue::Object(fields);
                            assert(members_view(mf@) =~= set_member(m0, "servers"@, JsonView::Null));
                            assert(members_view(fields@) =~= set_member(
                                f1,
                                "mcp"@,
                                JsonView::Object(set_member(m0, "servers"@, JsonView::Null)),
                            ));
                            Ok(items)
                        },
                        other => {
                            put_member(&mut mf, j, other);
                            assert(members_view(mf@) =~= m0);
                            put_member(&mut fields, i, JsonValue::Object(mf));
                            *value = JsonValue::Object(fields);
                            assert(members_view(fields@) =~= f1);
                            Err(PmError::ServersNotArray)
                        },
                    }
                },
                other => {
                    put_member(&mut fields, i, other);
                    *value = JsonValue::Object(fields);
                    Err(PmError::ServersNotArray)
                },
            }
        },
        other => {
            *value = other;
            Err(PmError::ServersNotArray)
        },
    }
}

/// Put `items` as `mcp.servers` of a config that has that member.
fn put_servers(value: &mut JsonValue, items: Vec<JsonValue>)
    requires
        has_servers_member(old(value)@),
    ensures
        final(value)@ == set_servers(old(value)@, JsonView::Array(items_view(items@))),
{
    let ghost iv = items_view(items@);
    let mut taken = JsonValue::Null;
    core::mem::swap(value, &mut taken);
    match taken {
        JsonValue::Object(mut fields) => {
            let ghost f1 = members_view(fields@);
            proof {
                lemma_members_view(fields@);
                lemma_key_index_from(f1, "mcp"@, 0);
            }
            let i = match key_position(&fields, "mcp") {
                Some(i) => i,
                None => {
                    *value = JsonValue::Object(fields);
                    return;
                },
            };
            let section = take_member(&mut fields, i);
            match section {
                JsonValue::Object(mut mf) => {
                    let ghost m0 = members_view(mf@);
                    proof {
                        lemma_members_view(mf@);
                        lemma_key_index_from(m0, "servers"@, 0);
                    }
                    let j = match key_position(&mf, "servers") {
                        Some(j) => j,
                        None => {
                            put_member(&mut fields, i, JsonValue::Object(mf));
                            *value = JsonValue::Object(fields);
                            return;
                        },
                    };
                    put_member(&mut mf, j, JsonValue::Array(items));
                    assert(members_view(mf@) =~= set_member(m0, "servers"@, JsonView::Array(iv)));
                    put_member(&mut fields, i, JsonValue::Object(mf));
                    *value = JsonValue::Object(fields);
                    assert(members_view(fields@) =~= set_member(
                        f1,
                        "mcp"@,
                        JsonView::Object(set_member(m0, "servers"@, JsonView::Array(iv))),
                    ));
                },
                other => {
                    put_member(&mut fields, i, other);
                    *value = JsonValue::Object(fields);
                },
            }
        },
        other => {
            *value = other;
        },
    }
}

/// What inserting or replacing the server entry `e` in the config `v` gives:
/// the result, and the config afterwards.
pub open spec fn upsert_outcome(v: JsonView, e: JsonView) -> (Result<bool, PmError>, JsonView) {
    match entry_id(e) {
        None => (Err(PmError::EntryWithoutId), v),
        Some(id) => match prepared_config(v) {
            None => (Err(PmError::McpNotObject), v),
            Some(v2) => match servers_of(v2) {
                None => (Err(PmError::ServersNotArray), v2),
                Some(a) => match server_index(a, id) {
                    Some(k) => (Ok(false), set_servers(v2, JsonView::Array(a.update(k, e)))),
                    None => (Ok(true), set_servers(v2, JsonView::Array(a.push(e)))),
                },
            },
        },
    }
}

/// After `prepared_config`, `mcp` is an object with a `servers` member.
proof fn lemma_prepared_has_servers(v: JsonView)
    requires
        v is Null || v is Object,
        prepared_config(v) is Some,
    ensures
        has_servers_member(prepared_config(v)->0),
{
    let v1 = with_mcp_section(v);
    match v {
        JsonView::Object(f) => {
            lemma_set_member(f, "mcp"@, default_mcp_section());
        },
        _ => {
            assert(set_member(seq![], "mcp"@, default_mcp_section()) =~= seq![("mcp"@, default_mcp_section())]);
            lemma_set_member(seq![], "mcp"@, default_mcp_section());
        },
    }
    let f = match jget(v1, "mcp"@) {
        Some(JsonView::Object(f)) => f,
        _ => seq![],
    };
    let c = completed_section(f);
    let g = match v1 {
        JsonView::Object(g) => g,
        _ => seq![],
    };
    lemma_set_member(g, "mcp"@, JsonView::Object(c));
    let f2 = add_if_absent(f, "enabled"@, JsonView::Bool(true));
    if member(f2, "servers"@) is None {
        lemma_key_index_from(f2, "servers"@, 0);
        lemma_key_index_from(f2.push(("servers"@, JsonView::Array(seq![]))), "servers"@, 0);
        assert(f2.push(("servers"@, JsonView::Array(seq![])))[f2.len() as int].0 == "servers"@);
    }
}

/// Add the MCP server entry `entry` to `mcp.servers`, or replace the entry
/// that has the same `id`. Returns whether a new entry was added. A config
/// that is neither `null` nor an object cannot be indexed by key: the caller
/// must not pass one.
pub fn upsert_mcp_server(value: &mut JsonValue, entry: JsonValue) -> (res: Result<bool, PmError>)
    requires
        *old(value) is Null || *old(value) is Object,
    ensures
        (res, final(value)@) == upsert_outcome(old(value)@, entry@),
{
    let id = match get_str(&entry, "id") {
        Some(s) => s.clone(),
        None => {
            return Err(PmError::EntryWithoutId);
        },
    };
    match mcp_enabled_mut(value) {
        Ok(()) => {},
        Err(e) => {
            return Err(e);
        },
    }
    proof {
        lemma_prepared_has_servers(old(value)@);
    }
    let ghost v2 = value@;
    let mut servers = match take_servers(value) {
        Ok(s) => s,
        Err(e) => {
            return Err(e);
        },
    };
    let ghost a = items_view(servers@);
    let ghost ev = entry@;
    proof {
        lemma_servers_hole(v2);
    }
    let added = match server_position(&servers, id.as_str()) {
        Some(k) => {
            proof {
                lemma_server_index_from(a, id@, 0);
                lemma_items_view(servers@);
            }
            servers.set(k, entry);
            proof {
                lemma_items_view(servers@);
            }
            assert(items_view(servers@) =~= a.update(k as int, ev));
            false
        },
        None => {
            proof {
                lemma_items_view(servers@);
            }
            servers.push(entry);
            proof {
                lemma_items_view(servers@);
            }
            assert(items_view(servers@) =~= a.push(ev));
            true
        },
    };
    put_servers(value, servers);
    Ok(added)
}

/// Setting `mcp.servers` twice leaves the second value, and a config with
/// the member still has it once it is set.
proof fn lemma_servers_hole(v: JsonView)
    requires
        has_servers_member(v),
    ensures
        has_servers_member(set_servers(v, JsonView::Null)),
        forall|x: JsonView| #[trigger] set_servers(set_servers(v, JsonView::Null), x) == set_servers(v, x),
        forall|x: JsonView| servers_of(#[trigger] set_servers(v, x)) == (match x {
            JsonView::Array(a) => Some(a),
            _ => None,
        }),
{
    let f = match v {
        JsonView::Object(f) => f,
        _ => seq![],
    };
    let m = jget(v, "mcp"@)->0;
    let mf = match m {
        JsonView::Object(mf) => mf,
        _ => seq![],
    };
    assert forall|x: JsonView| #[trigger] set_servers(set_servers(v, JsonView::Null), x) == set_servers(v, x) by {
        lemma_set_member(mf, "servers"@, JsonView::Null);
        lemma_set_member_twice(mf, "servers"@, JsonView::Null, x);
        let n = JsonView::Object(set_member(mf, "servers"@, JsonView::Null));
        lemma_set_member(f, "mcp"@, n);
        lemma_set_member_twice(f, "mcp"@, n, JsonView::Object(set_member(mf, "servers"@, x)));
    }
    assert forall|x: JsonView| servers_of(#[trigger] set_servers(v, x)) == (match x {
        JsonView::Array(a) => Some(a),
        _ => None,
    }) by {
        lemma_set_member(mf, "servers"@, x);
        lemma_set_member(f, "mcp"@, JsonView::Object(set_member(mf, "servers"@, x)));
    }
    lemma_set_member(mf, "servers"@, JsonView::Null);
    lemma_set_member(f, "mcp"@, JsonView::Object(set_member(mf, "servers"@, JsonView::Null)));
}

/// The test that keeps a server entry whose `id` is not `id`.
pub open spec fn other_id(id: Seq<char>) -> spec_fn(JsonView) -> bool {
    |e: JsonView| entry_id(e) != Some(id)
}

/// What removing the server entries with `id` from the config `v` gives: the
/// result, and the config afterwards.
pub open spec fn remove_outcome(v: JsonView, id: Seq<char>) -> (Result<bool, PmError>, JsonView) {
    match jget(v, "mcp"@) {
        None => (Ok(false), v),
        Some(JsonView::Object(_)) => match servers_of(v) {
            None => (Err(PmError::ServersNotArray), v),
            Some(a) => {
                let kept = a.filter(other_id(id));
                (Ok(kept.len() != a.len()), set_servers(v, JsonView::Array(kept)))
            },
        },
        Some(_) => (Err(PmError::McpNotObject), v),
    }
}

/// Remove every `mcp.servers` entry whose `id` is `id`. Returns whether any
/// was removed.
pub fn remove_mcp_server(value: &mut JsonValue, id: &str) -> (res: Result<bool, PmError>)
    ensures
        (res, final(value)@) == remove_outcome(old(value)@, id@),
{
    match get(value, "mcp") {
        None => {
            return Ok(false);
        },
        Some(JsonValue::Object(_)) => {},
        Some(_) => {
            return Err(PmError::McpNotObject);
        },
    }
    let ghost v0 = value@;
    proof {
        if servers_of(v0) is None && !has_servers_member(v0) {
        }
    }
    if get(get(value, "mcp").unwrap(), "servers").is_none() {
        return Err(PmError::ServersNotArray);
    }
    assert(has_servers_member(v0));
    proof {
        lemma_servers_hole(v0);
    }
    let mut servers = match take_servers(value) {
        Ok(s) => s,
        Err(e) => {
            return Err(e);
        },
    };
    let ghost a = items_view(servers@);
    let ghost pred = other_id(id@);
    let before = servers.len();
    let mut kept: Vec<JsonValue> = Vec::new();
    let mut n: usize = 0;
    proof {
        lemma_items_view(servers@);
        reveal(Seq::filter);
    }
    assert(items_view(kept@) =~= a.take(0).filter(pred)) by {
        lemma_items_view(kept@);
    }
    assert(servers@ =~= servers@.skip(0));
    let ghost orig = servers@;
    while servers.len() > 0
        invariant
            pred == other_id(id@),
            a == items_view(orig),
            a.len() == orig.len(),
            n + servers@.len() == orig.len(),
            orig.len() == before,
            servers@ == orig.skip(n as int),
            items_view(kept@) == a.take(n as int).filter(pred),
        decreases servers@.len(),
    {
        proof {
            lemma_items_view(orig);
        }
        let e = servers.remove(0);
        assert(json_view(e) == a[n as int]);
        let keep = match get_str(&e, "id") {
            Some(s) => !str_eq(s.as_str(), id),
            None => true,
        };
        assert(keep == pred(a[n as int]));
        proof {
            reveal(Seq::filter);
            assert(a.take(n + 1).drop_last() =~= a.take(n as int));
            assert(a.take(n + 1).last() == a[n as int]);
            lemma_items_view(kept@);
        }
        if keep {
            let ghost k0 = kept@;
            kept.push(e);
            proof {
                lemma_items_view(kept@);
            }
            assert(items_view(kept@) =~= items_view(k0).push(a[n as int]));
        }
        n = n + 1;
        assert(servers@ =~= orig.skip(n as int));
    }
    assert(a.take(n as int) =~= a);
    proof {
        lemma_items_view(kept@);
    }
    let changed = kept.len() != before;
    put_servers(value, kept);
    Ok(changed)
}

/// The config has an `mcp.servers` entry whose `id` is `id`.
pub open spec fn has_server(v: JsonView, id: Seq<char>) -> bool {
    match servers_of(v) {
        Some(a) => server_index(a, id) is Some,
        None => false,
    }
}

/// The number of `mcp.servers` entries; 0 when there is no such array.
pub open spec fn server_count(v: JsonView) -> nat {
    match servers_of(v) {
        Some(a) => a.len(),
        None => 0,
    }
}

/// The servers array of `value`, when `mcp.servers` is one.
fn servers_ref(value: &JsonValue) -> (res: Option<&Vec<JsonValue>>)
    ensures
        res matches Some(a) ==> servers_of(value@) == Some(items_view(a@)),
        res is None ==> servers_of(value@) is None,
{
    match get(value, "mcp") {
        Some(m) => match get(m, "servers") {
            Some(JsonValue::Array(a)) => Some(a),
            _ => None,
        },
        None => None,
    }
}

/// Whether `mcp.servers` holds an entry whose `id` is `id`.
pub fn has_mcp_server(value: &JsonValue, id: &str) -> (res: bool)
    ensures
        res == has_server(value@, id@),
{
    match servers_ref(value) {
        Some(a) => server_position(a, id).is_some(),
        None => false,
    }
}

/// The number of `mcp.servers` entries (0 when there is no such array).
pub fn count_mcp_servers(value: &JsonValue) -> (res: usize)
    ensures
        res == server_count(value@),
{
    match servers_ref(value) {
        Some(a) => {
            proof {
                lemma_items_view(a@);
            }
            a.len()
        },
        None => 0,
    }
}

/// An entry placed at `k`, or pushed at the end, is found by its id.
proof fn lemma_server_found(a: Seq<JsonView>, id: Seq<char>, e: JsonView, k: int)
    requires
        entry_id(e) == Some(id),
        0 <= k < a.len(),
    ensures
        server_index(a.update(k, e), id) is Some,
        server_index(a.push(e), id) is Some,
{
    lemma_server_index_from(a.update(k, e), id, 0);
    lemma_server_index_from(a.push(e), id, 0);
    assert(a.update(k, e)[k] == e);
    assert(a.push(e)[a.len() as int] == e);
}

/// Filtering keeps every element exactly when it keeps as many elements.
proof fn lemma_filter_keeps_all(a: Seq<JsonView>, pred: spec_fn(JsonView) -> bool)
    ensures
        a.filter(pred).len() <= a.len(),
        a.filter(pred).len() == a.len() <==> forall|i: int| 0 <= i < a.len() ==> pred(#[trigger] a[i]),
        forall|i: int| 0 <= i < a.filter(pred).len() ==> pred(#[trigger] a.filter(pred)[i]),
    decreases a.len(),
{
    reveal(Seq::filter);
    if a.len() > 0 {
        let d = a.drop_last();
        lemma_filter_keeps_all(d, pred);
        if !pred(a.last()) {
            assert(!pred(a[a.len() - 1]));
        }
        if forall|i: int| 0 <= i < a.len() ==> pred(#[trigger] a[i]) {
            assert forall|i: int| 0 <= i < d.len() implies pred(#[trigger] d[i]) by {
                assert(d[i] == a[i]);
            }
            assert(pred(a[a.len() - 1]));
        }
        if a.filter(pred).len() == a.len() {
            assert forall|i: int| 0 <= i < a.len() implies pred(#[trigger] a[i]) by {
                if i < a.len() - 1 {
                    assert(d[i] == a[i]);
                }
            }
        }
        assert forall|i: int| 0 <= i < a.filter(pred).len() implies pred(#[trigger] a.filter(pred)[i]) by {
            if i < d.filter(pred).len() {
                assert(a.filter(pred)[i] == d.filter(pred)[i]);
            }
        }
    }
}

/// Once `upsert_mcp_server` succeeds, the config has an entry with the
/// entry's id.
pub proof fn law_upsert_registers(v: JsonView, e: JsonView)
    requires
        v is Null || v is Object,
        upsert_outcome(v, e).0 is Ok,
    ensures
        has_server(upsert_outcome(v, e).1, entry_id(e)->0),
{
    let id = entry_id(e)->0;
    let v2 = prepared_config(v)->0;
    lemma_prepared_has_servers(v);
    lemma_servers_hole(v2);
    let a = servers_of(v2)->0;
    lemma_server_index_from(a, id, 0);
    match server_index(a, id) {
        Some(k) => {
            lemma_server_found(a, id, e, k);
        },
        None => {
            assert(a.push(e)[a.len() as int] == e);
            lemma_server_index_from(a.push(e), id, 0);
        },
    }
}

/// Where the config has `mcp.servers`, preparing it leaves them as they are;
/// where it has none, preparing gives an empty list.
proof fn lemma_prepared_servers(v: JsonView)
    requires
        v is Null || v is Object,
        prepared_config(v) is Some,
        servers_of(prepared_config(v)->0) is Some,
    ensures
        servers_of(prepared_config(v)->0)->0.len() == server_count(v),
        servers_of(v) is Some ==> servers_of(prepared_config(v)->0) == servers_of(v),
{
    let v1 = with_mcp_section(v);
    let g0 = match v {
        JsonView::Object(g) => g,
        _ => seq![],
    };
    match v {
        JsonView::Object(f) => {
            lemma_set_member(f, "mcp"@, default_mcp_section());
        },
        _ => {
            assert(set_member(seq![], "mcp"@, default_mcp_section()) =~= seq![("mcp"@, default_mcp_section())]);
            lemma_set_member(seq![], "mcp"@, default_mcp_section());
        },
    }
    let f = match jget(v1, "mcp"@) {
        Some(JsonView::Object(f)) => f,
        _ => seq![],
    };
    let g = match v1 {
        JsonView::Object(g) => g,
        _ => seq![],
    };
    let c = completed_section(f);
    lemma_set_member(g, "mcp"@, JsonView::Object(c));
    let f2 = add_if_absent(f, "enabled"@, JsonView::Bool(true));
    reveal_strlit("enabled");
    reveal_strlit("servers");
    reveal_strlit("mcp");
    assert("enabled"@[0] != "servers"@[0]);
    assert("enabled"@ != "servers"@);
    lemma_key_index_from(f, "enabled"@, 0);
    lemma_key_index_from(f2, "servers"@, 0);
    if member(f, "enabled"@) is None {
        lemma_set_member(f, "enabled"@, JsonView::Bool(true));
        assert(f2 == set_member(f, "enabled"@, JsonView::Bool(true)));
    }
    assert(member(f2, "servers"@) == member(f, "servers"@));
    if member(f2, "servers"@) is None {
        lemma_set_member(f2, "servers"@, JsonView::Array(seq![]));
        assert(c == set_member(f2, "servers"@, JsonView::Array(seq![])));
    }
    if jget(v, "mcp"@) is None {
        assert(jget(v1, "mcp"@) == Some(default_mcp_section()));
        assert(f =~= seq![("enabled"@, JsonView::Bool(true)), ("servers"@, JsonView::Array(seq![]))]);
        lemma_key_index_from(f, "servers"@, 0);
        assert(f[0].0 != "servers"@);
        assert(f[1].0 == "servers"@);
        assert(key_index_from(f, "servers"@, 1) == Some(1int));
        assert(server_count(v) == 0);
    }
}

/// `upsert_mcp_server` adds one entry to `mcp.servers` exactly when it
/// reports `true`, and keeps the number of entries when it reports `false`.
pub proof fn law_upsert_counts(v: JsonView, e: JsonView)
    requires
        v is Null || v is Object,
        upsert_outcome(v, e).0 is Ok,
    ensures
        server_count(upsert_outcome(v, e).1) == server_count(v) + (if upsert_outcome(v, e).0
            == Ok::<bool, PmError>(true) {
            1int
        } else {
            0int
        }),
{
    let id = entry_id(e)->0;
    let v2 = prepared_config(v)->0;
    lemma_prepared_has_servers(v);
    lemma_servers_hole(v2);
    lemma_prepared_servers(v);
    let a = servers_of(v2)->0;
    lemma_server_index_from(a, id, 0);
}

/// Once `remove_mcp_server` succeeds, no entry with the id is left, and it
/// reports `true` exactly when there was one.
pub proof fn law_remove_unregisters(v: JsonView, id: Seq<char>)
    requires
        remove_outcome(v, id).0 is Ok,
    ensures
        !has_server(remove_outcome(v, id).1, id),
        remove_outcome(v, id).0 == Ok::<bool, PmError>(has_server(v, id)),
{
    if jget(v, "mcp"@) is None {
    } else {
        let a = servers_of(v)->0;
        assert(has_servers_member(v));
        lemma_servers_hole(v);
        let pred = other_id(id);
        let kept = a.filter(pred);
        lemma_filter_keeps_all(a, pred);
        lemma_server_index_from(kept, id, 0);
        lemma_server_index_from(a, id, 0);
        assert forall|m: int| 0 <= m < kept.len() implies entry_id(#[trigger] kept[m]) != Some(id) by {
            assert(pred(kept[m]));
        }
        if server_index(a, id) is Some {
            let k = server_index(a, id)->0;
            assert(!pred(a[k]));
        } else {
            assert forall|i: int| 0 <= i < a.len() implies pred(#[trigger] a[i]) by {
                assert(entry_id(a[i]) != Some(id));
            }
        }
    }
}

/// The `mcp.servers` entries, or none when there is no such array.
pub open spec fn servers_or_empty(v: JsonView) -> Seq<JsonView> {
    match servers_of(v) {
        Some(a) => a,
        None => seq![],
    }
}

/// Registering an entry with an id reports `true` exactly when no entry had
/// that id: the entry is then appended; otherwise it replaces the first
/// entry with that id and every other entry stays as it was. Either way the
/// id is registered afterwards.
pub proof fn law_upsert_appends_or_replaces(v: JsonView, e: JsonView)
    requires
        v is Null || v is Object,
        upsert_outcome(v, e).0 is Ok,
    ensures
        upsert_outcome(v, e).0 == Ok::<bool, PmError>(!has_server(v, entry_id(e)->0)),
        servers_of(upsert_outcome(v, e).1) == Some(
            if has_server(v, entry_id(e)->0) {
                servers_or_empty(v).update(server_index(servers_or_empty(v), entry_id(e)->0)->0, e)
            } else {
                servers_or_empty(v).push(e)
            },
        ),
        has_server(upsert_outcome(v, e).1, entry_id(e)->0),
{
    let id = entry_id(e)->0;
    let v2 = prepared_config(v)->0;
    lemma_prepared_has_servers(v);
    lemma_servers_hole(v2);
    lemma_prepared_servers(v);
    let a = servers_of(v2)->0;
    if servers_of(v) is None {
        assert(a =~= Seq::<JsonView>::empty());
    }
    assert(a == servers_or_empty(v));
    law_upsert_registers(v, e);
}

/// Registering a server keeps every entry with another id: entries that the
/// user added by hand stay in the config.
pub proof fn law_upsert_keeps_other_servers(v: JsonView, e: JsonView, other: Seq<char>)
    requires
        v is Null || v is Object,
        upsert_outcome(v, e).0 is Ok,
        has_server(v, other),
        entry_id(e) != Some(other),
    ensures
        has_server(upsert_outcome(v, e).1, other),
{
    let id = entry_id(e)->0;
    let v2 = prepared_config(v)->0;
    lemma_prepared_has_servers(v);
    lemma_servers_hole(v2);
    lemma_prepared_servers(v);
    let a = servers_of(v2)->0;
    lemma_server_index_from(a, other, 0);
    let j = server_index(a, other)->0;
    match server_index(a, id) {
        Some(k) => {
            lemma_server_index_from(a, id, 0);
            let b = a.update(k, e);
            assert(j != k);
            assert(b[j] == a[j]);
            lemma_server_index_from(b, other, 0);
        },
        None => {
            let b = a.push(e);
            assert(b[j] == a[j]);
            lemma_server_index_from(b, other, 0);
        },
    }
}

/// Unregistering an id keeps every entry with another id.
pub proof fn law_remove_keeps_other_servers(v: JsonView, id: Seq<char>, other: Seq<char>)
    requires
        remove_outcome(v, id).0 is Ok,
        has_server(v, other),
        other != id,
    ensures
        has_server(remove_outcome(v, id).1, other),
{
    let a = servers_of(v)->0;
    assert(has_servers_member(v));
    lemma_servers_hole(v);
    lemma_server_index_from(a, other, 0);
    let j = server_index(a, other)->0;
    let pred = other_id(id);
    assert(pred(a[j]));
    a.lemma_filter_contains(pred, j);
    let kept = a.filter(pred);
    let m = choose|m: int| 0 <= m < kept.len() && kept[m] == a[j];
    lemma_server_index_from(kept, other, 0);
    assert(entry_id(kept[m]) == Some(other));
}

/// The config that miyu starts from has no MCP server entry.
pub proof fn law_default_config_has_no_servers(id: Seq<char>)
    ensures
        server_count(default_config_view()) == 0,
        !has_server(default_config_view(), id),
{
    reveal_strlit("config_version");
    reveal_strlit("mcp");
    reveal_strlit("enabled");
    reveal_strlit("servers");
    let top = seq![("config_version"@, JsonView::Number("2"@)), ("mcp"@, default_mcp_section())];
    assert("config_version"@.len() != "mcp"@.len());
    assert(top[0].0 != "mcp"@);
    assert(key_index_from(top, "mcp"@, 1) == Some(1int));
    let sec = seq![("enabled"@, JsonView::Bool(true)), ("servers"@, JsonView::Array(seq![]))];
    assert("enabled"@[0] != "servers"@[0]);
    assert(sec[0].0 != "servers"@);
    assert(key_index_from(sec, "servers"@, 1) == Some(1int));
    assert(servers_of(default_config_view()) == Some(Seq::<JsonView>::empty()));
    lemma_server_index_from(Seq::<JsonView>::empty(), id, 0);
}

/// What `json_comments::StripComments` reads from `raw`: the same bytes
/// with `//`, `#` and `/* */` comments outside strings turned into spaces;
/// `None` when it refuses the text (an unfinished string or block comment,
/// or a `/` that starts no comment).
pub uninterp spec fn jsonc_stripped(raw: Seq<u8>) -> Option<Seq<u8>>;

/// Reads `raw` through `json_comments::StripComments` to its end. The
/// contract claims that the result is `jsonc_stripped(raw)`, a function of
/// the bytes alone, and that the adapter changes bytes one for one, so a
/// result has as many bytes as `raw`.
#[verifier::external_body]
fn strip_comments_bytes(raw: &[u8]) -> (res: Option<Vec<u8>>)
    ensures
        res matches Some(v) ==> jsonc_stripped(raw@) == Some(v@) && v@.len() == raw@.len(),
        res is None ==> jsonc_stripped(raw@) is None,
{
    let mut out: Vec<u8> = Vec::new();
    match std::io::Read::read_to_end(&mut json_comments::StripComments::new(raw), &mut out) {
        Ok(_) => Some(out),
        Err(_) => None,
    }
}

/// The text of a `config.jsonc` with its comments blanked out, ready for a
/// JSON parser; fails when the comments are malformed.
pub fn strip_config_comments(raw: &str) -> (res: Result<Vec<u8>, PmError>)
    ensures
        res matches Ok(v) ==> jsonc_stripped(vstd::utf8::encode_utf8(raw@)) == Some(v@),
        res is Err <==> jsonc_stripped(vstd::utf8::encode_utf8(raw@)) is None,
        res matches Err(e) ==> e is InvalidJsonc,
{
    match strip_comments_bytes(raw.as_bytes()) {
        Some(v) => Ok(v),
        None => Err(PmError::InvalidJsonc),
    }
}

} // verus!
