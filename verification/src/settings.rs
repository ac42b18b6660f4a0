use vstd::prelude::*;

use std::collections::HashMap;

verus! {

/// A server the app can synchronise with.
pub struct RemoteSettings {
    pub url: String,
    pub name: String,
    pub account_name: Option<String>,
}

/// The app's settings: the known servers and the API keys for them.
pub struct AppSettings {
    pub known_remotes: Vec<RemoteSettings>,
    pub known_api_keys: HashMap<String, String>,
}

/// A server's settings as mathematical values.
pub struct RemoteView {
    pub url: Seq<char>,
    pub name: Seq<char>,
    pub account_name: Option<Seq<char>>,
}

pub open spec fn remote_view(r: RemoteSettings) -> RemoteView {
    RemoteView {
        url: r.url@,
        name: r.name@,
        account_name: match r.account_name {
            Some(a) => Some(a@),
            None => None,
        },
    }
}

pub open spec fn remotes_view(rs: Seq<RemoteSettings>) -> Seq<RemoteView> {
    rs.map_values(|r: RemoteSettings| remote_view(r))
}

/// The servers whose url is not `url`, in their order.
pub open spec fn without_url(rs: Seq<RemoteView>, url: Seq<char>) -> Seq<RemoteView>
    decreases rs.len(),
{
    if rs.len() == 0 {
        Seq::empty()
    } else {
        let rest = without_url(rs.drop_last(), url);
        if rs.last().url == url {
            rest
        } else {
            rest.push(rs.last())
        }
    }
}

/// The servers known at first: the public one and a local one.
pub open spec fn default_remotes() -> Seq<RemoteView> {
    seq![
        RemoteView { url: "https://api.debateresult.com"@, name: "Default"@, account_name: None },
        RemoteView { url: "http://localhost:3000"@, name: "Local"@, account_name: None },
    ]
}

impl Default for AppSettings {
    /// The public server and a local one, without API keys.
    fn default() -> (s: Self)
        ensures
            remotes_view(s.known_remotes@) == default_remotes(),
            s.known_api_keys@.len() == 0,
    {
        let mut known_remotes: Vec<RemoteSettings> = Vec::new();
        known_remotes.push(
            RemoteSettings { url: "https://api.debateresult.com".to_string(), name: "Default".to_string(), account_name: None },
        );
        known_remotes.push(
            RemoteSettings { url: "http://localhost:3000".to_string(), name: "Local".to_string(), account_name: None },
        );
        assert(remotes_view(known_remotes@) =~= default_remotes());
        let s = AppSettings { known_remotes, known_api_keys: HashMap::new() };
        s
    }
}

/// Keeps the servers whose url is not `url`.
fn retain_other_urls(remotes: &mut Vec<RemoteSettings>, url: &String)
    ensures
        remotes_view(final(remotes)@) == without_url(remotes_view(old(remotes)@), url@),
{
    let mut kept: Vec<RemoteSettings> = Vec::new();
    let ghost all = remotes_view(remotes@);
    let mut rest: Vec<RemoteSettings> = Vec::new();
    while remotes.len() > 0
        invariant
            all == remotes_view(remotes@) + remotes_view(rest@).reverse(),
        decreases remotes.len(),
    {
        let ghost before = remotes@;
        let ghost before_rest = rest@;
        let r = remotes.pop().unwrap();
        rest.push(r);
        assert(remotes_view(remotes@) =~= remotes_view(before).drop_last());
        assert(remotes_view(rest@).reverse() =~= seq![remote_view(r)] + remotes_view(before_rest).reverse());
        assert(remotes_view(before) =~= remotes_view(remotes@).push(remote_view(r)));
    }
    assert(remotes_view(rest@).reverse() =~= all);
    let ghost order = remotes_view(rest@).reverse();
    let mut taken: usize = 0;
    let n = rest.len();
    assert(order.take(0) =~= Seq::<RemoteView>::empty());
    while rest.len() > 0
        invariant
            taken + rest.len() == n,
            order.len() == n,
            order == all,
            remotes_view(rest@).reverse() =~= order.skip(taken as int),
            remotes_view(kept@) == without_url(order.take(taken as int), url@),
        decreases rest.len(),
    {
        let ghost before_rest = rest@;
        let r = rest.pop().unwrap();
        proof {
            let bv = remotes_view(before_rest);
            assert(bv.reverse()[0] == remote_view(r));
            assert(order.skip(taken as int)[0] == order[taken as int]);
            assert(order.take(taken + 1).drop_last() =~= order.take(taken as int));
            assert(remotes_view(rest@) =~= bv.drop_last());
            assert(bv.drop_last().reverse() =~= bv.reverse().drop_first());
            assert(order.skip(taken as int).drop_first() =~= order.skip(taken + 1));
        }
        if r.url != *url {
            let ghost before_kept = kept@;
            kept.push(r);
            assert(remotes_view(kept@) =~= remotes_view(before_kept).push(remote_view(r)));
        }
        taken += 1;
    }
    assert(order.take(n as int) =~= order);
    *remotes = kept;
}

/// Adds a server, replacing any known server with its url; the new server
/// comes last.
pub fn add_remote(settings: &mut AppSettings, new_remote: RemoteSettings)
    ensures
        remotes_view(final(settings).known_remotes@) == without_url(
            remotes_view(old(settings).known_remotes@),
            new_remote.url@,
        ).push(remote_view(new_remote)),
        final(settings).known_api_keys@ == old(settings).known_api_keys@,
{
    retain_other_urls(&mut settings.known_remotes, &new_remote.url);
    let ghost before = settings.known_remotes@;
    let ghost nv = remote_view(new_remote);
    settings.known_remotes.push(new_remote);
    assert(remotes_view(settings.known_remotes@) =~= remotes_view(before).push(nv));
}

/// Forgets the servers with the url.
pub fn remove_remote(settings: &mut AppSettings, url: String)
    ensures
        remotes_view(final(settings).known_remotes@) == without_url(remotes_view(old(settings).known_remotes@), url@),
        final(settings).known_api_keys@ == old(settings).known_api_keys@,
{
    retain_other_urls(&mut settings.known_remotes, &url);
}

} // verus!
