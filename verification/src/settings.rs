//! The settings of an update run (`settings.yml`): the library root and an
//! ordered map of Steam accounts, with the checks and defaults applied to
//! them once they are parsed.
use vstd::prelude::*;
use indexmap::IndexMap;
use std::collections::HashSet;

verus! {

broadcast use {vstd::string::group_string_axioms, vstd::std_specs::hash::group_hash_axioms};

#[verifier::external_type_specification]
#[verifier::external_body]
#[verifier::reject_recursive_types(K)]
#[verifier::reject_recursive_types(V)]
#[verifier::reject_recursive_types(S)]
pub struct ExIndexMap<K, V, S>(IndexMap<K, V, S>);

/// Per-account settings.
pub struct Account {
    /// Steam account password.
    pub password: Option<String>,
    /// Explicit numeric Steam App IDs to update.
    pub app_ids: Vec<u32>,
    /// Regex patterns matched against Steam app titles.
    pub app_res: Vec<String>,
}

/// Top-level settings.
pub struct Settings {
    /// Where to install all games.
    pub library_root: Option<String>,
    /// Ordered map of Steam accounts; the key is the Steam login name.
    pub accounts: IndexMap<String, Account>,
}

/// The entries of an account map, in the map's order.
pub uninterp spec fn account_entries(m: IndexMap<String, Account>) -> Seq<(String, Account)>;

/// `IndexMap::len`: the number of entries.
#[verifier::external_body]
pub(crate) fn accounts_len(m: &IndexMap<String, Account>) -> (n: usize)
    ensures
        n == account_entries(*m).len(),
{
    m.len()
}

/// `IndexMap::get_index`: the entry at position `i` of the map's order,
/// `None` past the end.
#[verifier::external_body]
pub(crate) fn account_at(m: &IndexMap<String, Account>, i: usize) -> (r: Option<(&String, &Account)>)
    ensures
        r == (if i < account_entries(*m).len() {
            Some((&account_entries(*m)[i as int].0, &account_entries(*m)[i as int].1))
        } else {
            None
        }),
{
    m.get_index(i)
}

/// Why parsed settings are refused.
#[derive(Debug, PartialEq, Eq)]
pub enum SettingsError {
    /// The `accounts` map is empty.
    NoAccounts,
}

/// The library root used when the settings name none.
pub open spec fn default_library_root() -> Seq<char> {
    "C:\\Program Files (x86)\\Steam"@
}

impl Settings {
    /// Accepts parsed settings that hold at least one account.
    pub fn validate(self) -> (r: Result<Settings, SettingsError>)
        ensures
            account_entries(self.accounts).len() > 0 ==> r == Ok::<Settings, SettingsError>(self),
            account_entries(self.accounts).len() == 0 ==> r == Err::<Settings, SettingsError>(
                SettingsError::NoAccounts,
            ),
    {
        if accounts_len(&self.accounts) == 0 {
            Err(SettingsError::NoAccounts)
        } else {
            Ok(self)
        }
    }

    /// The library root, `C:\Program Files (x86)\Steam` when none is set.
    pub fn library_root(&self) -> (r: &str)
        ensures
            r@ == (match self.library_root {
                Some(s) => s@,
                None => default_library_root(),
            }),
    {
        match &self.library_root {
            Some(s) => s.as_str(),
            None => "C:\\Program Files (x86)\\Steam",
        }
    }

    /// The login and password (empty when unset) of the first account, the
    /// one Steam is relaunched with.
    pub fn first_account(&self) -> (r: Option<(String, String)>)
        ensures
            account_entries(self.accounts).len() == 0 ==> r is None,
            account_entries(self.accounts).len() > 0 ==> (r matches Some((login, password)) && {
                let first = account_entries(self.accounts)[0];
                &&& login@ == first.0@
                &&& password@ == (match first.1.password {
                    Some(p) => p@,
                    None => Seq::<char>::empty(),
                })
            }),
    {
        match account_at(&self.accounts, 0) {
            None => None,
            Some((login, account)) => {
                let password = match &account.password {
                    Some(p) => p.clone(),
                    None => String::new(),
                };
                Some((login.clone(), password))
            },
        }
    }
}

/// What an update run does with one account.
#[derive(Debug, PartialEq, Eq)]
pub enum AccountAction {
    /// The account has no password.
    SkipNoPassword,
    /// The account lists neither App IDs nor title patterns.
    SkipNoApps,
    /// Update the account's apps; `resolve_patterns` when it has title
    /// patterns, which need the Steam app catalogue.
    Update { resolve_patterns: bool },
}

pub open spec fn account_action_spec(account: Account) -> AccountAction {
    if account.password is None {
        AccountAction::SkipNoPassword
    } else if account.app_ids@.len() == 0 && account.app_res@.len() == 0 {
        AccountAction::SkipNoApps
    } else {
        AccountAction::Update { resolve_patterns: account.app_res@.len() > 0 }
    }
}

pub fn account_action(account: &Account) -> (r: AccountAction)
    ensures
        r == account_action_spec(*account),
{
    if account.password.is_none() {
        AccountAction::SkipNoPassword
    } else if account.app_ids.len() == 0 && account.app_res.len() == 0 {
        AccountAction::SkipNoApps
    } else {
        AccountAction::Update { resolve_patterns: account.app_res.len() > 0 }
    }
}

// ── App ID lists ────────────────────────────────────────────────────────────

/// `s` without repeats, each value at its first occurrence.
pub open spec fn dedup(s: Seq<u32>) -> Seq<u32>
    decreases s.len(),
{
    if s.len() == 0 {
        Seq::empty()
    } else {
        let d = dedup(s.drop_last());
        if d.contains(s.last()) {
            d
        } else {
            d.push(s.last())
        }
    }
}

proof fn lemma_contains_push(d: Seq<u32>, a: u32, x: u32)
    ensures
        d.push(a).contains(x) <==> (d.contains(x) || x == a),
{
    if d.push(a).contains(x) && x != a {
        let k = choose|k: int| 0 <= k < d.push(a).len() && d.push(a)[k] == x;
        assert(d[k] == x);
    }
    if d.contains(x) {
        let k = choose|k: int| 0 <= k < d.len() && d[k] == x;
        assert(d.push(a)[k] == x);
    }
    if x == a {
        assert(d.push(a)[d.len() as int] == x);
    }
}

pub proof fn lemma_dedup(s: Seq<u32>)
    ensures
        dedup(s).no_duplicates(),
        forall|x: u32| dedup(s).contains(x) <==> s.contains(x),
    decreases s.len(),
{
    if s.len() > 0 {
        lemma_dedup(s.drop_last());
        let d = dedup(s.drop_last());
        assert(s =~= s.drop_last().push(s.last()));
        assert forall|x: u32| dedup(s).contains(x) <==> s.contains(x) by {
            lemma_contains_push(s.drop_last(), s.last(), x);
            lemma_contains_push(d, s.last(), x);
        }
        if !d.contains(s.last()) {
            assert forall|i: int, j: int|
                0 <= i < dedup(s).len() && 0 <= j < dedup(s).len() && i != j implies dedup(s)[i]
                != dedup(s)[j] by {
                if i == d.len() {
                    assert(d[j] == dedup(s)[j]);
                } else if j == d.len() {
                    assert(d[i] == dedup(s)[i]);
                }
            }
        }
    }
}

/// The explicit App IDs followed by the resolved ones, without repeats, each
/// at its first occurrence.
pub fn merge_app_ids(explicit: &[u32], resolved: &[u32]) -> (ids: Vec<u32>)
    ensures
        ids@ == dedup(explicit@ + resolved@),
        ids@.no_duplicates(),
        forall|x: u32| ids@.contains(x) <==> (explicit@.contains(x) || resolved@.contains(x)),
{
    let ghost all = explicit@ + resolved@;
    let mut seen: HashSet<u32> = HashSet::new();
    let mut ids: Vec<u32> = Vec::new();
    let mut i: usize = 0;
    assert(all.take(0) =~= Seq::<u32>::empty());
    while i < explicit.len()
        invariant
            all == explicit@ + resolved@,
            i <= explicit@.len(),
            ids@ == dedup(all.take(i as int)),
            forall|x: u32| seen@.contains(x) <==> ids@.contains(x),
        decreases explicit@.len() - i,
    {
        let x = explicit[i];
        assert(x == all[i as int]);
        assert(all.take(i + 1).drop_last() =~= all.take(i as int));
        let ghost before = ids@;
        if seen.insert(x) {
            ids.push(x);
            proof {
                assert forall|y: u32| seen@.contains(y) <==> ids@.contains(y) by {
                    lemma_contains_push(before, x, y);
                }
            }
        }
        i += 1;
    }
    let mut k: usize = 0;
    while k < resolved.len()
        invariant
            all == explicit@ + resolved@,
            k <= resolved@.len(),
            ids@ == dedup(all.take(explicit@.len() + k)),
            forall|x: u32| seen@.contains(x) <==> ids@.contains(x),
        decreases resolved@.len() - k,
    {
        let x = resolved[k];
        assert(x == all[explicit@.len() + k]);
        assert(all.take(explicit@.len() + k + 1).drop_last() =~= all.take(explicit@.len() + k));
        let ghost before = ids@;
        if seen.insert(x) {
            ids.push(x);
            proof {
                assert forall|y: u32| seen@.contains(y) <==> ids@.contains(y) by {
                    lemma_contains_push(before, x, y);
                }
            }
        }
        k += 1;
    }
    assert(all.take(all.len() as int) =~= all);
    proof {
        lemma_dedup(all);
        assert forall|x: u32| all.contains(x) <==> (explicit@.contains(x) || resolved@.contains(x)) by {
            if all.contains(x) {
                let k = choose|k: int| 0 <= k < all.len() && all[k] == x;
                if k < explicit@.len() {
                    assert(explicit@[k] == x);
                } else {
                    assert(resolved@[k - explicit@.len()] == x);
                }
            }
            if explicit@.contains(x) {
                let k = choose|k: int| 0 <= k < explicit@.len() && explicit@[k] == x;
                assert(all[k] == x);
            }
            if resolved@.contains(x) {
                let k = choose|k: int| 0 <= k < resolved@.len() && resolved@[k] == x;
                assert(all[explicit@.len() + k] == x);
            }
        }
    }
    assert forall|x: u32| ids@.contains(x) <==> (explicit@.contains(x) || resolved@.contains(x)) by {
        assert(dedup(all).contains(x) <==> all.contains(x));
        assert(all.contains(x) <==> (explicit@.contains(x) || resolved@.contains(x)));
    }
    ids
}

} // verus!
