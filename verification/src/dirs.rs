//! The directories that are shared by all projects of a user.

use vstd::prelude::*;
use crate::host::Host;
use crate::lockfile::text_option;

verus! {

/// The environment variables that decide where the directories are; `None` where one
/// is not set or is not Unicode.
#[derive(Debug)]
pub struct DirEnvironment {
    pub xdg_cache_home: Option<String>,
    pub local_app_data: Option<String>,
    pub home: Option<String>,
}

/// A directory: a base from the environment and the relative paths to join to it, in
/// order.
#[derive(Debug)]
pub struct JoinedDir {
    pub base: String,
    pub joined: Vec<String>,
}

#[verifier::ext_equal]
pub struct JoinedDirView {
    pub base: Seq<char>,
    pub joined: Seq<Seq<char>>,
}

impl View for JoinedDir {
    type V = JoinedDirView;

    open spec fn view(&self) -> JoinedDirView {
        JoinedDirView { base: self.base@, joined: self.joined.deep_view() }
    }
}

/// The view of an optional directory.
pub open spec fn dir_option(dir: Option<JoinedDir>) -> Option<JoinedDirView> {
    match dir {
        Some(d) => Some(d@),
        None => None,
    }
}

/// One relative path joined to an optional base.
pub open spec fn joined_to(base: Option<Seq<char>>, tail: Seq<char>) -> Option<JoinedDirView> {
    match base {
        Some(b) => Some(JoinedDirView { base: b, joined: seq![tail] }),
        None => None,
    }
}

/// The cache directory: under `XDG_CACHE_HOME`, else on Windows under `LOCALAPPDATA`,
/// else under `HOME`.
pub open spec fn cache_dir_of(host: Host, env: DirEnvironment) -> Option<JoinedDirView> {
    if env.xdg_cache_home is Some {
        joined_to(text_option(env.xdg_cache_home), "aube"@)
    } else if host == Host::Windows && env.local_app_data is Some {
        joined_to(text_option(env.local_app_data), "aube"@)
    } else {
        joined_to(text_option(env.home), ".cache/aube"@)
    }
}

/// The directory of globally linked packages, inside the cache directory.
pub open spec fn global_links_dir_of(host: Host, env: DirEnvironment) -> Option<JoinedDirView> {
    match cache_dir_of(host, env) {
        Some(dir) => Some(JoinedDirView { joined: dir.joined.push("global-links"@), ..dir }),
        None => None,
    }
}

/// The content-addressable store: on Windows under `LOCALAPPDATA`, else under `HOME`.
pub open spec fn store_dir_of(host: Host, env: DirEnvironment) -> Option<JoinedDirView> {
    if host == Host::Windows && env.local_app_data is Some {
        joined_to(text_option(env.local_app_data), "aube-store/v1/files"@)
    } else {
        joined_to(text_option(env.home), ".aube-store/v1/files"@)
    }
}

fn join(base: &String, tail: &str) -> (r: JoinedDir)
    ensures
        r@ == (JoinedDirView { base: base@, joined: seq![tail@] }),
{
    let mut joined: Vec<String> = Vec::new();
    joined.push(tail.to_string());
    let r = JoinedDir { base: base.clone(), joined };
    assert(r@.joined =~= seq![tail@]);
    r
}

/// The cache directory, if the environment names one.
pub fn cache_dir(host: Host, env: &DirEnvironment) -> (r: Option<JoinedDir>)
    ensures
        dir_option(r) == cache_dir_of(host, *env),
{
    if let Some(xdg) = &env.xdg_cache_home {
        return Some(join(xdg, "aube"));
    }
    if host == Host::Windows {
        if let Some(local) = &env.local_app_data {
            return Some(join(local, "aube"));
        }
    }
    match &env.home {
        Some(home) => Some(join(home, ".cache/aube")),
        None => None,
    }
}

/// The directory of globally linked packages, if the environment names one.
pub fn global_links_dir(host: Host, env: &DirEnvironment) -> (r: Option<JoinedDir>)
    ensures
        dir_option(r) == global_links_dir_of(host, *env),
{
    match cache_dir(host, env) {
        Some(dir) => {
            let ghost before = dir@;
            let mut dir = dir;
            dir.joined.push("global-links".to_string());
            assert(dir@.joined =~= before.joined.push("global-links"@));
            Some(dir)
        },
        None => None,
    }
}

/// The content-addressable store, if the environment names one.
pub fn store_dir(host: Host, env: &DirEnvironment) -> (r: Option<JoinedDir>)
    ensures
        dir_option(r) == store_dir_of(host, *env),
{
    if host == Host::Windows {
        if let Some(local) = &env.local_app_data {
            return Some(join(local, "aube-store/v1/files"));
        }
    }
    match &env.home {
        Some(home) => Some(join(home, ".aube-store/v1/files")),
        None => None,
    }
}

/// `XDG_CACHE_HOME` decides where the cache is on every machine, then `LOCALAPPDATA` on
/// Windows only, then `HOME`. The store does not look at `XDG_CACHE_HOME`.
pub proof fn law_variables_decide_in_order(host: Host, env: DirEnvironment)
    ensures
        env.xdg_cache_home matches Some(xdg) ==> (cache_dir_of(host, env) matches Some(dir)
            && dir.base == xdg@ && dir.joined == seq!["aube"@]),
        env.xdg_cache_home is None && host == Host::Windows ==> (env.local_app_data matches Some(
            local,
        ) ==> (cache_dir_of(host, env) matches Some(dir) && dir.base == local@ && dir.joined
            == seq!["aube"@])),
        env.xdg_cache_home is None && (host != Host::Windows || env.local_app_data is None) ==> (
        cache_dir_of(host, env) is Some <==> env.home is Some) && (env.home matches Some(home) ==> (
        cache_dir_of(host, env) matches Some(dir) && dir.base == home@ && dir.joined
            == seq![".cache/aube"@])),
        host == Host::Windows ==> (env.local_app_data matches Some(local) ==> (store_dir_of(
            host,
            env,
        ) matches Some(dir) && dir.base == local@ && dir.joined == seq!["aube-store/v1/files"@])),
        host != Host::Windows || env.local_app_data is None ==> (store_dir_of(host, env) is Some
            <==> env.home is Some) && (env.home matches Some(home) ==> (store_dir_of(
            host,
            env,
        ) matches Some(dir) && dir.base == home@ && dir.joined
            == seq![".aube-store/v1/files"@])),
{
}

/// Linked packages are kept directly inside the cache.
pub proof fn law_links_are_in_the_cache(host: Host, env: DirEnvironment)
    ensures
        global_links_dir_of(host, env) is Some <==> cache_dir_of(host, env) is Some,
        cache_dir_of(host, env) matches Some(cache) ==> (global_links_dir_of(
            host,
            env,
        ) matches Some(links) && links.base == cache.base && links.joined == cache.joined.push(
            "global-links"@,
        )),
{
}

} // verus!
