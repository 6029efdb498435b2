//! Bookkeeping for cloud storage: which accounts have been listed, and how
//! a listed cloud path is stored.
use vstd::prelude::*;
use crate::dirdiff::InfoDir;
use crate::text::{chars_of, owned, push_all, str_eq};

verus! {

/// The key under which a listed account is remembered: the account, then
/// `@` and the service's tag (`dx` or `m`).
pub open spec fn listed_key_spec(account: Seq<char>, tag: Seq<char>) -> Seq<char> {
    account + seq!['@'] + tag
}

/// Builds the key of a listed account.
pub fn listed_key(account: &str, tag: &str) -> (r: String)
    ensures
        r@ == listed_key_spec(account@, tag@),
{
    let mut r = owned(account);
    r.push('@');
    push_all(&mut r, tag);
    r
}

/// The character sequences of a list of strings.
pub open spec fn strs_view(v: Seq<String>) -> Seq<Seq<char>> {
    v.map_values(|s: String| s@)
}

/// Whether `key` is among `listed`.
pub fn listed_contains(listed: &Vec<String>, key: &str) -> (r: bool)
    ensures
        r == strs_view(listed@).contains(key@),
{
    let mut i: usize = 0;
    while i < listed.len()
        invariant
            i <= listed.len(),
            forall|j: int| 0 <= j < i ==> #[trigger] strs_view(listed@)[j] != key@,
        decreases listed.len() - i,
    {
        if str_eq(listed[i].as_str(), key) {
            assert(strs_view(listed@)[i as int] == key@);
            return true;
        }
        i = i + 1;
    }
    false
}

/// Remembers that an account was listed; a key already present is not
/// added twice.
pub fn mark_listed(listed: &mut Vec<String>, key: String)
    ensures
        strs_view(final(listed)@).to_set() == strs_view(old(listed)@).to_set().insert(key@),
        strs_view(old(listed)@).no_duplicates() ==> strs_view(final(listed)@).no_duplicates(),
{
    if !listed_contains(listed, key.as_str()) {
        let ghost before = strs_view(listed@);
        let ghost k = key@;
        listed.push(key);
        proof {
            assert(strs_view(listed@) =~= before.push(k));
            before.lemma_push_to_set_commute(k);
        }
    } else {
        proof {
            assert(strs_view(listed@).to_set() =~= strs_view(listed@).to_set().insert(key@));
        }
    }
}

/// Whether the remote side of a pair has been listed: a local entfo needs
/// no listing, an `M` or `D` account must have been listed once.
pub open spec fn side_listed(d: (u8, Seq<char>, Seq<char>), listed: Seq<Seq<char>>) -> bool {
    if d.0 == 0 {
        true
    } else if d.0 == 1 {
        listed.contains(listed_key_spec(d.1, "m"@))
    } else {
        listed.contains(listed_key_spec(d.1, "dx"@))
    }
}

fn side_listed_exec(listed: &Vec<String>, d: &InfoDir) -> (r: bool)
    ensures
        r == side_listed(d@, strs_view(listed@)),
{
    match d {
        InfoDir::Entfo(_) => true,
        InfoDir::M(inner) => {
            let k = listed_key(inner.0.as_str(), "m");
            listed_contains(listed, k.as_str())
        },
        InfoDir::D(inner) => {
            let k = listed_key(inner.0.as_str(), "dx");
            listed_contains(listed, k.as_str())
        },
    }
}

/// Whether both sides of a pair may be compared: each remote side must have
/// been listed at least once.
pub fn chk_listed_at_least_once(listed: &Vec<String>, pair: &(InfoDir, InfoDir)) -> (r: bool)
    ensures
        r == (side_listed(pair.0@, strs_view(listed@)) && side_listed(pair.1@, strs_view(listed@))),
{
    let ok0 = side_listed_exec(listed, &pair.0);
    let ok1 = side_listed_exec(listed, &pair.1);
    ok0 && ok1
}

/// How a cloud path is stored: without its leading slash. A path that is
/// missing or does not start with a slash is not stored.
pub open spec fn dx_stored_path_spec(p: Option<Seq<char>>) -> Option<Seq<char>> {
    match p {
        Some(s) => if s.len() > 0 && s[0] == '/' {
            Some(s.drop_first())
        } else {
            None
        },
        None => None,
    }
}

/// The stored form of a listed cloud path.
pub fn dx_stored_path(path_display: &Option<String>) -> (r: Option<String>)
    ensures
        match r {
            Some(s) => dx_stored_path_spec(
                match path_display {
                    Some(p) => Some(p@),
                    None => None,
                },
            ) == Some(s@),
            None => dx_stored_path_spec(
                match path_display {
                    Some(p) => Some(p@),
                    None => None,
                },
            ) is None,
        },
{
    match path_display {
        None => None,
        Some(p) => {
            let cs = chars_of(p.as_str());
            if cs.len() > 0 && cs[0] == '/' {
                let mut out = String::new();
                let mut i: usize = 1;
                while i < cs.len()
                    invariant
                        1 <= i <= cs.len(),
                        out@ == cs@.subrange(1, i as int),
                    decreases cs.len() - i,
                {
                    out.push(cs[i]);
                    assert(cs@.subrange(1, i + 1) =~= cs@.subrange(1, i as int).push(cs@[i as int]));
                    i = i + 1;
                }
                assert(cs@.subrange(1, cs.len() as int) =~= cs@.drop_first());
                Some(out)
            } else {
                None
            }
        },
    }
}

/// Whether the path a cloud upload reports is the path that was stored for
/// it (the stored path with a leading slash).
pub fn dx_path_matches(stored: &str, reported: &str) -> (r: bool)
    ensures
        r == (reported@ == seq!['/'] + stored@),
{
    let mut expect = String::new();
    expect.push('/');
    push_all(&mut expect, stored);
    assert(expect@ =~= seq!['/'] + stored@);
    str_eq(expect.as_str(), reported)
}

/// What the library reads of a cloud file's listing entry.
pub struct DxFileMeta {
    pub id: String,
    pub client_modified: String,
    pub server_modified: String,
    pub size: u64,
    pub path_display: Option<String>,
}

/// A row of the table of listed cloud files.
pub struct DxRow {
    pub email: String,
    pub id: String,
    pub client_modified: String,
    pub server_modified: String,
    pub size: i64,
    pub path_display: String,
}

/// The row stored for a listed cloud file of account `email`: its path
/// without the leading slash, and its size as the database's integer. A
/// file without a path, or whose path does not start with a slash, is not
/// stored.
pub fn dx_exec_insertion(email: &str, md: DxFileMeta) -> (r: Option<DxRow>)
    ensures
        match r {
            Some(row) => {
                &&& dx_stored_path_spec(
                    match md.path_display {
                        Some(p) => Some(p@),
                        None => None,
                    },
                ) == Some(row.path_display@)
                &&& row.email@ == email@
                &&& row.id == md.id
                &&& row.client_modified == md.client_modified
                &&& row.server_modified == md.server_modified
                &&& row.size == md.size as i64
            },
            None => dx_stored_path_spec(
                match md.path_display {
                    Some(p) => Some(p@),
                    None => None,
                },
            ) is None,
        },
{
    match dx_stored_path(&md.path_display) {
        None => None,
        Some(p) => Some(
            DxRow {
                email: owned(email),
                id: md.id,
                client_modified: md.client_modified,
                server_modified: md.server_modified,
                size: md.size as i64,
                path_display: p,
            },
        ),
    }
}

} // verus!
