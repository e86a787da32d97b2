//! Configuration: saved accounts with their tokens and profiles, tracked
//! game versions, and the rules that pick an account, a profile or a
//! version for a command.
use vstd::prelude::*;
use crate::text::{str_eq, string_is};

verus! {

/// OAuth tokens of one account.
#[derive(Debug)]
pub struct Tokens {
    pub access_token: String,
    pub id_token: Option<String>,
    pub refresh_token: Option<String>,
    /// Unix time (seconds) at which the access token expires.
    pub expires_at: Option<i64>,
    pub scope: Option<String>,
}

/// A game profile (in-game character) belonging to an account.
#[derive(Debug)]
pub struct Profile {
    pub uuid: String,
    pub username: String,
}

/// A saved account with its OAuth tokens and profiles.
#[derive(Debug)]
pub struct Account {
    /// Local label of the account.
    pub label: String,
    /// OAuth tokens, stored in a file of their own.
    pub tokens: Tokens,
    /// OAuth client the account signed in with.
    pub client_id: String,
    /// Known profiles of the account.
    pub profiles: Vec<Profile>,
    /// UUID of the profile used when none is named.
    pub default_profile: Option<String>,
}

/// An installed game version.
#[derive(Debug)]
pub struct Version {
    pub channel: String,
    pub build: String,
    /// Directory the game files are installed in.
    pub install_path: String,
}

/// The saved accounts, each under a distinct label.
#[derive(Debug)]
pub struct Accounts {
    labels: Vec<String>,
    accounts: Vec<Account>,
}

/// Whether no two entries share a label.
pub open spec fn labels_distinct(entries: Seq<(String, Account)>) -> bool {
    forall|i: int, j: int| 0 <= i < j < entries.len() ==> entries[i].0@ != entries[j].0@
}

/// Whether some entry has label `k`.
pub open spec fn has_label(entries: Seq<(String, Account)>, k: Seq<char>) -> bool {
    exists|i: int| 0 <= i < entries.len() && entries[i].0@ == k
}

/// The accounts of `entries` by label.
pub open spec fn entries_map(entries: Seq<(String, Account)>) -> Map<Seq<char>, Account> {
    Map::new(
        |k: Seq<char>| has_label(entries, k),
        |k: Seq<char>| entries[choose|i: int| 0 <= i < entries.len() && entries[i].0@ == k].1,
    )
}

/// In a list with distinct labels, the entry at `i` is what its label maps to.
pub proof fn lemma_entries_map_at(entries: Seq<(String, Account)>, i: int)
    requires
        labels_distinct(entries),
        0 <= i < entries.len(),
    ensures
        entries_map(entries).dom().contains(entries[i].0@),
        entries_map(entries)[entries[i].0@] == entries[i].1,
{
    let k = entries[i].0@;
    assert(has_label(entries, k));
    let j = choose|j: int| 0 <= j < entries.len() && entries[j].0@ == k;
    if j != i {
        if j < i {
            assert(entries[j].0@ != entries[i].0@);
        } else {
            assert(entries[i].0@ != entries[j].0@);
        }
    }
}

/// An optional string taken as an optional character sequence.
pub open spec fn opt_view(o: Option<String>) -> Option<Seq<char>> {
    match o {
        Some(s) => Some(s@),
        None => None,
    }
}

/// Whether `m` maps `k`, and to what.
pub open spec fn lookup(m: Map<Seq<char>, Account>, k: Seq<char>) -> Option<Account> {
    if m.dom().contains(k) {
        Some(m[k])
    } else {
        None
    }
}

/// Whether no two strings of `labels` are equal.
pub open spec fn strings_distinct(labels: Seq<String>) -> bool {
    forall|i: int, j: int| 0 <= i < j < labels.len() ==> labels[i]@ != labels[j]@
}

/// The labels and accounts of two parallel lists, paired up.
pub open spec fn zip_entries(labels: Seq<String>, accounts: Seq<Account>) -> Seq<(String, Account)> {
    Seq::new(labels.len(), |i: int| (labels[i], accounts[i]))
}

impl Accounts {
    #[verifier::type_invariant]
    spec fn inv(self) -> bool {
        &&& self.labels@.len() == self.accounts@.len()
        &&& strings_distinct(self.labels@)
    }

    /// Moves the two lists out, leaving no accounts behind.
    fn take_lists(&mut self) -> (res: (Vec<String>, Vec<Account>))
        ensures
            res.0@ == old(self).labels@,
            res.1@ == old(self).accounts@,
            res.0@.len() == res.1@.len(),
            strings_distinct(res.0@),
    {
        proof {
            use_type_invariant(&*self);
        }
        let mut taken = Accounts { labels: Vec::new(), accounts: Vec::new() };
        std::mem::swap(&mut taken, self);
        proof {
            use_type_invariant(&taken);
        }
        let Accounts { labels, accounts } = taken;
        (labels, accounts)
    }

    /// The labels and accounts, in the order the accounts were added.
    pub closed spec fn pairs(self) -> Seq<(String, Account)> {
        zip_entries(self.labels@, self.accounts@)
    }

    /// The pairs of a list of accounts have distinct labels.
    proof fn lemma_pairs_distinct(self)
        requires
            self.inv(),
        ensures
            labels_distinct(self.pairs()),
            self.pairs().len() == self.labels@.len(),
    {
    }
}

impl View for Accounts {
    type V = Map<Seq<char>, Account>;

    closed spec fn view(&self) -> Map<Seq<char>, Account> {
        entries_map(self.pairs())
    }
}

impl Accounts {
    /// No accounts.
    pub fn new() -> (res: Accounts)
        ensures
            res@ == Map::<Seq<char>, Account>::empty(),
    {
        let res = Accounts { labels: Vec::new(), accounts: Vec::new() };
        assert(res.pairs() =~= Seq::<(String, Account)>::empty());
        assert(res@ =~= Map::<Seq<char>, Account>::empty());
        res
    }

    /// The number of accounts.
    pub fn len(&self) -> (res: usize)
        ensures
            res == self@.len(),
    {
        proof {
            use_type_invariant(self);
            self.lemma_pairs_distinct();
            lemma_map_len(self.pairs());
        }
        self.labels.len()
    }

    /// Whether there are no accounts.
    pub fn is_empty(&self) -> (res: bool)
        ensures
            res == (self@.dom() == Set::<Seq<char>>::empty()),
    {
        proof {
            use_type_invariant(self);
            self.lemma_pairs_distinct();
            if self.labels@.len() > 0 {
                lemma_entries_map_at(self.pairs(), 0);
                assert(self@.dom().contains(self.pairs()[0].0@));
            } else {
                assert(self@.dom() =~= Set::<Seq<char>>::empty());
            }
        }
        self.labels.len() == 0
    }

    /// The position of the account labelled `label`, if any.
    fn find_index(&self, label: &str) -> (res: Option<usize>)
        ensures
            match res {
                Some(i) => i < self.labels@.len() && self.labels@[i as int]@ == label@,
                None => forall|j: int| 0 <= j < self.labels@.len() ==> self.labels@[j]@ != label@,
            },
        no_unwind
    {
        let mut i: usize = 0;
        while i < self.labels.len()
            invariant
                i <= self.labels@.len(),
                forall|j: int| 0 <= j < i ==> self.labels@[j]@ != label@,
            decreases self.labels@.len() - i,
        {
            if string_is(&self.labels[i], label) {
                return Some(i);
            }
            i = i + 1;
        }
        None
    }

    /// Whether an account is labelled `label`.
    pub fn contains_key(&self, label: &str) -> (res: bool)
        ensures
            res == self@.dom().contains(label@),
    {
        proof {
            use_type_invariant(self);
            self.lemma_pairs_distinct();
        }
        let r = self.find_index(label);
        proof {
            if r is None {
                assert(!has_label(self.pairs(), label@));
            } else {
                assert(self.pairs()[r.unwrap() as int].0@ == label@);
            }
        }
        r.is_some()
    }

    /// The account labelled `label`.
    pub fn get(&self, label: &str) -> (res: Option<&Account>)
        ensures
            match res {
                Some(a) => self@.dom().contains(label@) && *a == self@[label@],
                None => !self@.dom().contains(label@),
            },
    {
        proof {
            use_type_invariant(self);
            self.lemma_pairs_distinct();
        }
        match self.find_index(label) {
            Some(i) => {
                proof {
                    lemma_entries_map_at(self.pairs(), i as int);
                }
                Some(&self.accounts[i])
            },
            None => {
                proof {
                    assert(!has_label(self.pairs(), label@));
                }
                None
            },
        }
    }

    /// The account labelled `label`, to be changed in place.
    pub fn get_mut(&mut self, label: &str) -> (res: Option<&mut Account>)
        ensures
            match res {
                Some(a) => old(self)@.dom().contains(label@) && *a == old(self)@[label@]
                    && final(self)@ == old(self)@.insert(label@, *final(a)),
                None => !old(self)@.dom().contains(label@) && final(self)@ == old(self)@,
            },
        no_unwind
    {
        proof {
            use_type_invariant(&*self);
            self.lemma_pairs_distinct();
        }
        let ghost old_pairs = self.pairs();
        match self.find_index(label) {
            Some(i) => {
                proof {
                    lemma_entries_map_at(old_pairs, i as int);
                }
                let ghost labels = self.labels@;
                let ghost accounts = self.accounts@;
                let r = &mut self.accounts[i];
                proof {
                    let new_pairs = zip_entries(labels, accounts.update(i as int, *final(r)));
                    assert(new_pairs =~= old_pairs.update(i as int, (labels[i as int], *final(r))));
                    lemma_update_view(old_pairs, i as int, (labels[i as int], *final(r)));
                }
                Some(r)
            },
            None => {
                proof {
                    assert(!has_label(old_pairs, label@));
                }
                None
            },
        }
    }

    /// Stores `account` under `label`, replacing and returning the account
    /// that was there.
    pub fn insert(&mut self, label: String, account: Account) -> (res: Option<Account>)
        ensures
            final(self)@ == old(self)@.insert(label@, account),
            res == lookup(old(self)@, label@),
    {
        proof {
            use_type_invariant(&*self);
            self.lemma_pairs_distinct();
        }
        let ghost old_pairs = self.pairs();
        let ghost k = label@;
        match self.find_index(label.as_str()) {
            Some(i) => {
                proof {
                    lemma_entries_map_at(old_pairs, i as int);
                }
                let (labels, mut accounts) = self.take_lists();
                let old_account = accounts.remove(i);
                accounts.insert(i, account);
                proof {
                    let new_pairs = zip_entries(labels@, accounts@);
                    assert(new_pairs =~= old_pairs.update(i as int, (labels@[i as int], account)));
                    lemma_update_view(old_pairs, i as int, (labels@[i as int], account));
                }
                *self = Accounts { labels, accounts };
                Some(old_account)
            },
            None => {
                proof {
                    assert(!has_label(old_pairs, k));
                }
                let (mut labels, mut accounts) = self.take_lists();
                labels.push(label);
                accounts.push(account);
                proof {
                    let new_pairs = zip_entries(labels@, accounts@);
                    assert(new_pairs =~= old_pairs.push(new_pairs.last()));
                    assert(labels_distinct(new_pairs)) by {
                        assert forall|a: int, b: int| 0 <= a < b < new_pairs.len() implies new_pairs[a].0@ != new_pairs[b].0@ by {
                            if b == new_pairs.len() - 1 {
                                assert(!(0 <= a < old_pairs.len() && old_pairs[a].0@ == k));
                            }
                        }
                    }
                    lemma_push_view(old_pairs, new_pairs.last());
                }
                *self = Accounts { labels, accounts };
                None
            },
        }
    }

    /// Removes the account labelled `label` and returns it.
    pub fn remove(&mut self, label: &str) -> (res: Option<Account>)
        ensures
            final(self)@ == old(self)@.remove(label@),
            res == lookup(old(self)@, label@),
    {
        proof {
            use_type_invariant(&*self);
            self.lemma_pairs_distinct();
        }
        let ghost old_pairs = self.pairs();
        match self.find_index(label) {
            Some(i) => {
                proof {
                    lemma_entries_map_at(old_pairs, i as int);
                }
                let (mut labels, mut accounts) = self.take_lists();
                let _l = labels.remove(i);
                let account = accounts.remove(i);
                proof {
                    assert(zip_entries(labels@, accounts@) =~= old_pairs.remove(i as int));
                    lemma_remove_view(old_pairs, i as int);
                }
                *self = Accounts { labels, accounts };
                Some(account)
            },
            None => {
                proof {
                    assert(!has_label(old_pairs, label@));
                    assert(self@ =~= old(self)@.remove(label@));
                }
                None
            },
        }
    }

    /// The labels, in the order the accounts were added.
    pub fn labels(&self) -> (res: Vec<String>)
        ensures
            res@.len() == self.pairs().len(),
            forall|i: int| 0 <= i < res@.len() ==> #[trigger] res@[i]@ == self.pairs()[i].0@,
            forall|k: Seq<char>| self@.dom().contains(k) <==> exists|i: int| 0 <= i < res@.len() && #[trigger] res@[i]@ == k,
    {
        proof {
            use_type_invariant(self);
            self.lemma_pairs_distinct();
        }
        let mut out: Vec<String> = Vec::new();
        let mut i: usize = 0;
        while i < self.labels.len()
            invariant
                i <= self.labels@.len(),
                out@.len() == i,
                forall|j: int| 0 <= j < i ==> #[trigger] out@[j]@ == self.labels@[j]@,
            decreases self.labels@.len() - i,
        {
            out.push(self.labels[i].clone());
            i = i + 1;
        }
        proof {
            assert forall|k: Seq<char>| self@.dom().contains(k) implies exists|i: int| 0 <= i < out@.len() && #[trigger] out@[i]@ == k by {
                let i = choose|i: int| 0 <= i < self.pairs().len() && self.pairs()[i].0@ == k;
                assert(out@[i]@ == k);
            }
            assert forall|k: Seq<char>| (exists|i: int| 0 <= i < out@.len() && #[trigger] out@[i]@ == k) implies self@.dom().contains(k) by {
                let i = choose|i: int| 0 <= i < out@.len() && #[trigger] out@[i]@ == k;
                assert(self.pairs()[i].0@ == k);
            }
        }
        out
    }
}

/// The labels of any list of entries form a finite set.
proof fn lemma_entries_map_finite(es: Seq<(String, Account)>)
    ensures
        entries_map(es).dom().finite(),
{
    let keys = es.map_values(|e: (String, Account)| e.0@);
    assert forall|k: Seq<char>| entries_map(es).dom().contains(k) implies keys.to_set().contains(k) by {
        let i = choose|i: int| 0 <= i < es.len() && es[i].0@ == k;
        assert(keys[i] == k);
    }
    vstd::seq_lib::seq_to_set_is_finite(keys);
    vstd::set_lib::lemma_len_subset(entries_map(es).dom(), keys.to_set());
}

/// A list with distinct labels maps as many labels as it has entries.
proof fn lemma_map_len(es: Seq<(String, Account)>)
    requires
        labels_distinct(es),
    ensures
        entries_map(es).len() == es.len(),
        entries_map(es).dom().finite(),
{
    let keys = es.map_values(|e: (String, Account)| e.0@);
    assert forall|i: int, j: int| 0 <= i < j < keys.len() implies keys[i] != keys[j] by {
        assert(es[i].0@ != es[j].0@);
    }
    assert(keys.no_duplicates());
    assert(entries_map(es).dom() =~= keys.to_set()) by {
        assert forall|k: Seq<char>| entries_map(es).dom().contains(k) implies keys.to_set().contains(k) by {
            let i = choose|i: int| 0 <= i < es.len() && es[i].0@ == k;
            assert(keys[i] == k);
        }
        assert forall|k: Seq<char>| keys.to_set().contains(k) implies entries_map(es).dom().contains(k) by {
            let i = choose|i: int| 0 <= i < keys.len() && keys[i] == k;
            assert(es[i].0@ == k);
        }
    }
    keys.unique_seq_to_set();
}

/// The map of a list with distinct labels after the entry at `i` is
/// replaced by one with the same label.
proof fn lemma_update_view(entries: Seq<(String, Account)>, i: int, e: (String, Account))
    requires
        labels_distinct(entries),
        labels_distinct(entries.update(i, e)),
        0 <= i < entries.len(),
        e.0@ == entries[i].0@,
    ensures
        entries_map(entries.update(i, e)) == entries_map(entries).insert(e.0@, e.1),
{
    let n = entries.update(i, e);
    let m = entries_map(entries).insert(e.0@, e.1);
    assert forall|k: Seq<char>| entries_map(n).dom().contains(k) <==> m.dom().contains(k) by {
        if has_label(n, k) {
            let j = choose|j: int| 0 <= j < n.len() && n[j].0@ == k;
            if j != i {
                assert(entries[j].0@ == k);
            }
        }
        if has_label(entries, k) {
            let j = choose|j: int| 0 <= j < entries.len() && entries[j].0@ == k;
            assert(n[j].0@ == k);
        }
    }
    assert forall|k: Seq<char>| #[trigger] m.dom().contains(k) implies entries_map(n)[k] == m[k] by {
        let j = choose|j: int| 0 <= j < n.len() && n[j].0@ == k;
        lemma_entries_map_at(n, j);
        if j != i {
            lemma_entries_map_at(entries, j);
        }
    }
    assert(entries_map(n) =~= m);
}

/// The map of a list with distinct labels after an entry with a new label
/// is added at the end.
proof fn lemma_push_view(entries: Seq<(String, Account)>, e: (String, Account))
    requires
        labels_distinct(entries),
        labels_distinct(entries.push(e)),
    ensures
        entries_map(entries.push(e)) == entries_map(entries).insert(e.0@, e.1),
{
    let n = entries.push(e);
    let m = entries_map(entries).insert(e.0@, e.1);
    assert forall|k: Seq<char>| entries_map(n).dom().contains(k) <==> m.dom().contains(k) by {
        if has_label(n, k) {
            let j = choose|j: int| 0 <= j < n.len() && n[j].0@ == k;
            if j < entries.len() {
                assert(entries[j].0@ == k);
            }
        }
        if has_label(entries, k) {
            let j = choose|j: int| 0 <= j < entries.len() && entries[j].0@ == k;
            assert(n[j].0@ == k);
        }
        if k == e.0@ {
            assert(n[entries.len() as int].0@ == k);
        }
    }
    assert forall|k: Seq<char>| #[trigger] m.dom().contains(k) implies entries_map(n)[k] == m[k] by {
        assert(has_label(n, k));
        let j = choose|j: int| 0 <= j < n.len() && n[j].0@ == k;
        lemma_entries_map_at(n, j);
        if j < entries.len() {
            assert(n[j].0@ != n[entries.len() as int].0@);
            lemma_entries_map_at(entries, j);
        }
    }
    assert(entries_map(n) =~= m);
}

/// The map of a list with distinct labels after the entry at `i` is removed.
proof fn lemma_remove_view(entries: Seq<(String, Account)>, i: int)
    requires
        labels_distinct(entries),
        0 <= i < entries.len(),
    ensures
        labels_distinct(entries.remove(i)),
        entries_map(entries.remove(i)) == entries_map(entries).remove(entries[i].0@),
{
    let n = entries.remove(i);
    let k0 = entries[i].0@;
    assert forall|a: int, b: int| 0 <= a < b < n.len() implies n[a].0@ != n[b].0@ by {
        let a2 = if a < i { a } else { a + 1 };
        let b2 = if b < i { b } else { b + 1 };
        assert(n[a] == entries[a2]);
        assert(n[b] == entries[b2]);
    }
    let m = entries_map(entries).remove(k0);
    assert forall|k: Seq<char>| entries_map(n).dom().contains(k) <==> m.dom().contains(k) by {
        if has_label(n, k) {
            let j = choose|j: int| 0 <= j < n.len() && n[j].0@ == k;
            let j2 = if j < i { j } else { j + 1 };
            assert(entries[j2].0@ == k);
            assert(j2 != i);
        }
        if has_label(entries, k) && k != k0 {
            let j = choose|j: int| 0 <= j < entries.len() && entries[j].0@ == k;
            assert(j != i);
            let j2 = if j < i { j } else { j - 1 };
            assert(n[j2].0@ == k);
        }
    }
    assert forall|k: Seq<char>| #[trigger] m.dom().contains(k) implies entries_map(n)[k] == m[k] by {
        assert(entries_map(n).dom().contains(k));
        assert(has_label(n, k));
        let j = choose|j: int| 0 <= j < n.len() && n[j].0@ == k;
        lemma_entries_map_at(n, j);
        let j2 = if j < i { j } else { j + 1 };
        assert(n[j] == entries[j2]);
        lemma_entries_map_at(entries, j2);
    }
    assert(entries_map(n) =~= m);
}

impl Accounts {
    /// The account at position `i` in the order the accounts were added.
    fn account_at(&self, i: usize) -> (res: &Account)
        requires
            i < self.pairs().len(),
        ensures
            *res == self.pairs()[i as int].1,
            self@.dom().contains(self.pairs()[i as int].0@),
            self@[self.pairs()[i as int].0@] == *res,
    {
        proof {
            use_type_invariant(self);
            self.lemma_pairs_distinct();
            lemma_entries_map_at(self.pairs(), i as int);
        }
        &self.accounts[i]
    }

    /// Every account is at some position.
    proof fn lemma_mapped_at(self, k: Seq<char>)
        requires
            self.inv(),
            self@.dom().contains(k),
        ensures
            exists|i: int| 0 <= i < self.pairs().len() && self.pairs()[i].0@ == k && self.pairs()[i].1 == self@[k],
    {
        self.lemma_pairs_distinct();
        let i = choose|i: int| 0 <= i < self.pairs().len() && self.pairs()[i].0@ == k;
        lemma_entries_map_at(self.pairs(), i);
    }
}

impl Account {
    /// A newly signed-in account: its profiles as fetched, the first of
    /// them the default profile (none when there are no profiles).
    pub fn signed_in(label: String, tokens: Tokens, client_id: String, profiles: Vec<Profile>) -> (res: Account)
        ensures
            res.label == label,
            res.tokens == tokens,
            res.client_id == client_id,
            res.profiles == profiles,
            res.default_profile == if profiles@.len() > 0 {
                Some(profiles@[0].uuid)
            } else {
                None::<String>
            },
    {
        let default_profile = if profiles.len() > 0 {
            Some(profiles[0].uuid.clone())
        } else {
            None
        };
        Account { label, tokens, client_id, profiles, default_profile }
    }
}

impl Clone for Profile {
    fn clone(&self) -> (res: Self)
        ensures
            res == *self,
    {
        Profile { uuid: self.uuid.clone(), username: self.username.clone() }
    }
}

impl Clone for Version {
    fn clone(&self) -> (res: Self)
        ensures
            res == *self,
    {
        Version { channel: self.channel.clone(), build: self.build.clone(), install_path: self.install_path.clone() }
    }
}

/// The top-level configuration.
#[derive(Debug)]
pub struct Config {
    /// Saved accounts by label.
    pub accounts: Accounts,
    /// Label of the account used when none is named.
    pub default_account: Option<String>,
    /// Build used when no version is named.
    pub default_version: Option<String>,
    /// Installed versions, oldest first.
    pub versions: Vec<Version>,
    /// Whether tokens go to the system keychain.
    pub use_keychain: bool,
}

impl Config {
    /// An empty configuration.
    pub fn new() -> (res: Config)
        ensures
            res.accounts@ == Map::<Seq<char>, Account>::empty(),
            res.default_account is None,
            res.default_version is None,
            res.versions@.len() == 0,
            !res.use_keychain,
    {
        Config {
            accounts: Accounts::new(),
            default_account: None,
            default_version: None,
            versions: Vec::new(),
            use_keychain: false,
        }
    }
}

impl Default for Config {
    /// An empty configuration, as `Config::new` gives it.
    fn default() -> (res: Config)
        ensures
            res.accounts@ == Map::<Seq<char>, Account>::empty(),
            res.default_account is None,
            res.default_version is None,
            res.versions@.len() == 0,
            !res.use_keychain,
    {
        Config::new()
    }
}

/// Why an account, profile or version could not be resolved.
#[derive(Debug, PartialEq, Eq)]
pub enum ConfigError {
    /// No account has the label.
    AccountNotFound(String),
    /// No account was named and no default account is set.
    NoDefaultAccount,
    /// The default account's label names no account.
    DefaultAccountNotFound(String),
    /// No profile of the account has the name or UUID.
    ProfileNotFound { profile: String, account: String },
    /// No profile was named and the account has no default profile.
    NoDefaultProfile { account: String },
    /// No profile of the account has the default profile's UUID.
    DefaultProfileNotFound { uuid: String, account: String },
    /// No installed version has the build.
    VersionNotInstalled(String),
    /// No account has a profile with the name or UUID.
    ProfileNotInAnyAccount(String),
    /// No version was named and no default version is set.
    NoVersion,
}

/// Whether a profile goes by `key`, as its UUID or its username.
pub open spec fn profile_matches(p: Profile, key: Seq<char>) -> bool {
    p.uuid@ == key || p.username@ == key
}

/// Whether `i` is the first position of `ps` whose profile goes by `key`.
pub open spec fn is_first_match(ps: Seq<Profile>, i: int, key: Seq<char>) -> bool {
    &&& 0 <= i < ps.len()
    &&& profile_matches(ps[i], key)
    &&& forall|j: int| 0 <= j < i ==> !profile_matches(#[trigger] ps[j], key)
}

/// Whether some profile of `ps` goes by `key`.
pub open spec fn has_match(ps: Seq<Profile>, key: Seq<char>) -> bool {
    exists|i: int| 0 <= i < ps.len() && profile_matches(#[trigger] ps[i], key)
}

/// Whether `i` is the first position of `ps` whose profile has UUID `uuid`.
pub open spec fn is_first_uuid(ps: Seq<Profile>, i: int, uuid: Seq<char>) -> bool {
    &&& 0 <= i < ps.len()
    &&& ps[i].uuid@ == uuid
    &&& forall|j: int| 0 <= j < i ==> (#[trigger] ps[j]).uuid@ != uuid
}

/// The OAuth client whose accounts may run a dedicated server.
pub open spec fn server_client_id() -> Seq<char> {
    "hytale-server"@
}

/// Whether an account signed in with the server client.
pub open spec fn is_server_account(a: Account) -> bool {
    a.client_id@ == server_client_id()
}

/// Whether `a` is one of the accounts of `m`.
pub open spec fn is_account_of(m: Map<Seq<char>, Account>, a: Account) -> bool {
    exists|k: Seq<char>| m.dom().contains(k) && m[k] == a
}

/// The first profile of `ps` that goes by `key`, as a position.
fn first_matching_profile(ps: &Vec<Profile>, key: &str) -> (res: Option<usize>)
    ensures
        match res {
            Some(i) => is_first_match(ps@, i as int, key@),
            None => !has_match(ps@, key@),
        },
{
    let mut i: usize = 0;
    while i < ps.len()
        invariant
            i <= ps@.len(),
            forall|j: int| 0 <= j < i ==> !profile_matches(#[trigger] ps@[j], key@),
        decreases ps@.len() - i,
    {
        if str_eq(ps[i].uuid.as_str(), key) || str_eq(ps[i].username.as_str(), key) {
            return Some(i);
        }
        i = i + 1;
    }
    None
}

/// The first profile of `ps` with UUID `uuid`, as a position.
fn first_profile_with_uuid(ps: &Vec<Profile>, uuid: &str) -> (res: Option<usize>)
    ensures
        match res {
            Some(i) => is_first_uuid(ps@, i as int, uuid@),
            None => forall|j: int| 0 <= j < ps@.len() ==> (#[trigger] ps@[j]).uuid@ != uuid@,
        },
{
    let mut i: usize = 0;
    while i < ps.len()
        invariant
            i <= ps@.len(),
            forall|j: int| 0 <= j < i ==> (#[trigger] ps@[j]).uuid@ != uuid@,
        decreases ps@.len() - i,
    {
        if str_eq(ps[i].uuid.as_str(), uuid) {
            return Some(i);
        }
        i = i + 1;
    }
    None
}

impl Config {
    /// The account named by `label`, or the default account when none is named.
    pub fn resolve_account(&self, label: Option<&str>) -> (res: Result<&Account, ConfigError>)
        ensures
            match label {
                Some(l) => if self.accounts@.dom().contains(l@) {
                    res matches Ok(a) && *a == self.accounts@[l@]
                } else {
                    res matches Err(ConfigError::AccountNotFound(x)) && x@ == l@
                },
                None => match self.default_account {
                    None => res matches Err(ConfigError::NoDefaultAccount),
                    Some(d) => if self.accounts@.dom().contains(d@) {
                        res matches Ok(a) && *a == self.accounts@[d@]
                    } else {
                        res matches Err(ConfigError::DefaultAccountNotFound(x)) && x@ == d@
                    },
                },
            },
    {
        match label {
            Some(l) => match self.accounts.get(l) {
                Some(a) => Ok(a),
                None => Err(ConfigError::AccountNotFound(l.to_owned())),
            },
            None => match &self.default_account {
                None => Err(ConfigError::NoDefaultAccount),
                Some(d) => match self.accounts.get(d.as_str()) {
                    Some(a) => Ok(a),
                    None => Err(ConfigError::DefaultAccountNotFound(d.clone())),
                },
            },
        }
    }

    /// Like `resolve_account`, for changing the account in place.
    pub fn resolve_account_mut(&mut self, label: Option<&str>) -> (res: Result<&mut Account, ConfigError>)
        ensures
            final(self).default_account == old(self).default_account,
            final(self).default_version == old(self).default_version,
            final(self).versions == old(self).versions,
            final(self).use_keychain == old(self).use_keychain,
            match label {
                Some(l) => if old(self).accounts@.dom().contains(l@) {
                    res matches Ok(a) && *a == old(self).accounts@[l@]
                        && final(self).accounts@ == old(self).accounts@.insert(l@, *final(a))
                } else {
                    res matches Err(ConfigError::AccountNotFound(x)) && x@ == l@
                        && final(self).accounts@ == old(self).accounts@
                },
                None => match old(self).default_account {
                    None => res matches Err(ConfigError::NoDefaultAccount)
                        && final(self).accounts@ == old(self).accounts@,
                    Some(d) => if old(self).accounts@.dom().contains(d@) {
                        res matches Ok(a) && *a == old(self).accounts@[d@]
                            && final(self).accounts@ == old(self).accounts@.insert(d@, *final(a))
                    } else {
                        res matches Err(ConfigError::DefaultAccountNotFound(x)) && x@ == d@
                            && final(self).accounts@ == old(self).accounts@
                    },
                },
            },
    {
        match label {
            Some(l) => match self.accounts.get_mut(l) {
                Some(a) => Ok(a),
                None => Err(ConfigError::AccountNotFound(l.to_owned())),
            },
            None => {
                let default = match &self.default_account {
                    None => return Err(ConfigError::NoDefaultAccount),
                    Some(d) => d.clone(),
                };
                match self.accounts.get_mut(default.as_str()) {
                    Some(a) => Ok(a),
                    None => Err(ConfigError::DefaultAccountNotFound(default)),
                }
            },
        }
    }

    /// The account and profile that go by `profile` (a username or UUID),
    /// searching every account; the default account is preferred when it
    /// has such a profile.
    pub fn find_account_for_profile(&self, profile: &str) -> (res: Option<(&Account, &Profile)>)
        ensures
            match res {
                Some((a, p)) => is_account_of(self.accounts@, *a)
                    && exists|i: int| is_first_match(a.profiles@, i, profile@) && a.profiles@[i] == *p,
                None => forall|k: Seq<char>| #[trigger] self.accounts@.dom().contains(k)
                    ==> !has_match(self.accounts@[k].profiles@, profile@),
            },
            (self.default_account matches Some(d) && self.accounts@.dom().contains(d@)
                && has_match(self.accounts@[d@].profiles@, profile@))
                ==> (res matches Some((a, _)) && *a == self.accounts@[self.default_account->0@]),
    {
        if let Some(d) = &self.default_account {
            if let Some(acct) = self.accounts.get(d.as_str()) {
                if let Some(i) = first_matching_profile(&acct.profiles, profile) {
                    return Some((acct, &acct.profiles[i]));
                }
            }
        }
        proof {
            use_type_invariant(&self.accounts);
            self.accounts.lemma_pairs_distinct();
            lemma_map_len(self.accounts.pairs());
        }
        let n = self.accounts.len();
        let mut i: usize = 0;
        while i < n
            invariant
                n == self.accounts.pairs().len(),
                i <= n,
                labels_distinct(self.accounts.pairs()),
                forall|j: int| 0 <= j < i ==> !has_match(#[trigger] self.accounts.pairs()[j].1.profiles@, profile@),
                (self.default_account is Some && self.accounts@.dom().contains(self.default_account->0@)) ==> !has_match(self.accounts@[self.default_account->0@].profiles@, profile@),
            decreases n - i,
        {
            let acct = self.accounts.account_at(i);
            if let Some(j) = first_matching_profile(&acct.profiles, profile) {
                return Some((acct, &acct.profiles[j]));
            }
            i = i + 1;
        }
        proof {
            assert forall|k: Seq<char>| #[trigger] self.accounts@.dom().contains(k)
                implies !has_match(self.accounts@[k].profiles@, profile@) by {
                self.accounts.lemma_mapped_at(k);
            }
        }
        None
    }

    /// An account that signed in with the server client, preferring the
    /// default account.
    pub fn resolve_server_account(&self) -> (res: Option<&Account>)
        ensures
            match res {
                Some(a) => is_account_of(self.accounts@, *a) && is_server_account(*a),
                None => forall|k: Seq<char>| #[trigger] self.accounts@.dom().contains(k)
                    ==> !is_server_account(self.accounts@[k]),
            },
            (self.default_account matches Some(d) && self.accounts@.dom().contains(d@)
                && is_server_account(self.accounts@[d@]))
                ==> (res matches Some(a) && *a == self.accounts@[self.default_account->0@]),
    {
        if let Some(label) = &self.default_account {
            if let Some(acct) = self.accounts.get(label.as_str()) {
                if string_is(&acct.client_id, "hytale-server") {
                    return Some(acct);
                }
            }
        }
        proof {
            use_type_invariant(&self.accounts);
            self.accounts.lemma_pairs_distinct();
            lemma_map_len(self.accounts.pairs());
        }
        let n = self.accounts.len();
        let mut i: usize = 0;
        while i < n
            invariant
                n == self.accounts.pairs().len(),
                i <= n,
                labels_distinct(self.accounts.pairs()),
                forall|j: int| 0 <= j < i ==> !is_server_account(#[trigger] self.accounts.pairs()[j].1),
                (self.default_account is Some && self.accounts@.dom().contains(self.default_account->0@)) ==> !is_server_account(self.accounts@[self.default_account->0@]),
            decreases n - i,
        {
            let acct = self.accounts.account_at(i);
            if string_is(&acct.client_id, "hytale-server") {
                return Some(acct);
            }
            i = i + 1;
        }
        proof {
            assert forall|k: Seq<char>| #[trigger] self.accounts@.dom().contains(k)
                implies !is_server_account(self.accounts@[k]) by {
                self.accounts.lemma_mapped_at(k);
            }
        }
        None
    }

    /// The profile of `account` that goes by `profile`, or the account's
    /// default profile when none is named.
    pub fn resolve_profile<'a>(&self, account: &'a Account, profile: Option<&str>) -> (res: Result<&'a Profile, ConfigError>)
        ensures
            match profile {
                Some(p) => if has_match(account.profiles@, p@) {
                    res matches Ok(r) && exists|i: int| is_first_match(account.profiles@, i, p@) && account.profiles@[i] == *r
                } else {
                    res matches Err(ConfigError::ProfileNotFound { profile: x, account: l })
                        && x@ == p@ && l@ == account.label@
                },
                None => match account.default_profile {
                    None => res matches Err(ConfigError::NoDefaultProfile { account: l }) && l@ == account.label@,
                    Some(u) => if exists|i: int| 0 <= i < account.profiles@.len() && (#[trigger] account.profiles@[i]).uuid@ == u@ {
                        res matches Ok(r) && exists|i: int| is_first_uuid(account.profiles@, i, u@) && account.profiles@[i] == *r
                    } else {
                        res matches Err(ConfigError::DefaultProfileNotFound { uuid: x, account: l })
                            && x@ == u@ && l@ == account.label@
                    },
                },
            },
    {
        match profile {
            Some(p) => match first_matching_profile(&account.profiles, p) {
                Some(i) => Ok(&account.profiles[i]),
                None => Err(ConfigError::ProfileNotFound { profile: p.to_owned(), account: account.label.clone() }),
            },
            None => match &account.default_profile {
                None => Err(ConfigError::NoDefaultProfile { account: account.label.clone() }),
                Some(uuid) => match first_profile_with_uuid(&account.profiles, uuid.as_str()) {
                    Some(i) => Ok(&account.profiles[i]),
                    None => Err(ConfigError::DefaultProfileNotFound { uuid: uuid.clone(), account: account.label.clone() }),
                },
            },
        }
    }
}

/// The versions of `vs` whose build is not `b`, in order.
pub open spec fn without_build(vs: Seq<Version>, b: Seq<char>) -> Seq<Version> {
    vs.filter(|v: Version| v.build@ != b)
}

/// Whether some version of `vs` has build `b`.
pub open spec fn has_build(vs: Seq<Version>, b: Seq<char>) -> bool {
    exists|i: int| 0 <= i < vs.len() && (#[trigger] vs[i]).build@ == b
}

/// The versions of `vs` whose build is not `build`, as copies.
fn versions_without(vs: &Vec<Version>, build: &str) -> (res: Vec<Version>)
    ensures
        res@ == without_build(vs@, build@),
{
    let mut out: Vec<Version> = Vec::new();
    let mut i: usize = 0;
    while i < vs.len()
        invariant
            i <= vs@.len(),
            out@ == without_build(vs@.take(i as int), build@),
        decreases vs@.len() - i,
    {
        proof {
            assert(vs@.take(i + 1).drop_last() =~= vs@.take(i as int));
            reveal(Seq::filter);
        }
        if !str_eq(vs[i].build.as_str(), build) {
            out.push(vs[i].clone());
        }
        i = i + 1;
    }
    assert(vs@.take(vs@.len() as int) =~= vs@);
    out
}

/// Stores `account` under its label, replacing an account with that label.
pub fn add_account(config: &mut Config, account: Account)
    ensures
        final(config).accounts@ == old(config).accounts@.insert(account.label@, account),
        final(config).default_account == old(config).default_account,
        final(config).default_version == old(config).default_version,
        final(config).versions == old(config).versions,
        final(config).use_keychain == old(config).use_keychain,
{
    let label = account.label.clone();
    config.accounts.insert(label, account);
}

/// Removes the account labelled `label`, and unsets the default account if
/// it was that one.
pub fn remove_account(config: &mut Config, label: &str)
    ensures
        final(config).accounts@ == old(config).accounts@.remove(label@),
        final(config).default_account == if old(config).default_account matches Some(d) && d@ == label@ {
            None
        } else {
            old(config).default_account
        },
        final(config).default_version == old(config).default_version,
        final(config).versions == old(config).versions,
        final(config).use_keychain == old(config).use_keychain,
{
    config.accounts.remove(label);
    let is_default = match &config.default_account {
        Some(d) => str_eq(d.as_str(), label),
        None => false,
    };
    if is_default {
        config.default_account = None;
    }
}

/// `m` with the tokens of the account labelled `k` replaced by `t`, when
/// there is such an account.
pub open spec fn with_tokens(m: Map<Seq<char>, Account>, k: Seq<char>, t: Tokens) -> Map<Seq<char>, Account> {
    if m.dom().contains(k) {
        m.insert(k, Account { tokens: t, ..m[k] })
    } else {
        m
    }
}

/// `m` with each stored `(label, tokens)` pair applied in order.
pub open spec fn with_stored_tokens(m: Map<Seq<char>, Account>, stored: Seq<(String, Tokens)>) -> Map<Seq<char>, Account>
    decreases stored.len(),
{
    if stored.len() == 0 {
        m
    } else {
        with_stored_tokens(with_tokens(m, stored[0].0@, stored[0].1), stored.drop_first())
    }
}

/// Completes a configuration read from disk with the tokens read from the
/// accounts' token files: each `(label, tokens)` pair replaces the tokens of
/// the account with that label.
pub fn load_full_config(config: Config, stored: Vec<(String, Tokens)>) -> (res: Config)
    ensures
        res.accounts@ == with_stored_tokens(config.accounts@, stored@),
        res.default_account == config.default_account,
        res.default_version == config.default_version,
        res.versions == config.versions,
        res.use_keychain == config.use_keychain,
{
    let mut cfg = config;
    let mut stored = stored;
    let ghost m0 = cfg.accounts@;
    let ghost s0 = stored@;
    while stored.len() > 0
        invariant
            with_stored_tokens(m0, s0) == with_stored_tokens(cfg.accounts@, stored@),
            cfg.default_account == config.default_account,
            cfg.default_version == config.default_version,
            cfg.versions == config.versions,
            cfg.use_keychain == config.use_keychain,
        decreases stored@.len(),
    {
        let ghost before = stored@;
        let (label, tokens) = stored.remove(0);
        assert(stored@ =~= before.drop_first());
        let ghost m = cfg.accounts@;
        match cfg.accounts.get_mut(label.as_str()) {
            Some(account) => {
                account.tokens = tokens;
                proof {
                    assert(cfg.accounts@ =~= with_tokens(m, label@, tokens));
                }
            },
            None => {},
        }
    }
    cfg
}

/// The file name under which the tokens of account `label` are stored.
pub fn tokens_file_name(label: &str) -> (res: String)
    ensures
        res@ == "tokens-"@ + label@ + ".json"@,
{
    let mut name = String::from_str("tokens-");
    name.append(label);
    name.append(".json");
    name
}

impl Config {
    /// Adds a newly signed-in account, and makes it the default account
    /// when none is set.
    pub fn register_account(&mut self, account: Account)
        ensures
            final(self).accounts@ == old(self).accounts@.insert(account.label@, account),
            opt_view(final(self).default_account) == match old(self).default_account {
                Some(d) => Some(d@),
                None => Some(account.label@),
            },
            final(self).default_version == old(self).default_version,
            final(self).versions == old(self).versions,
            final(self).use_keychain == old(self).use_keychain,
    {
        let label = account.label.clone();
        if self.default_account.is_none() {
            self.default_account = Some(account.label.clone());
        }
        self.accounts.insert(label, account);
    }

    /// Makes the account labelled `label` the default account.
    pub fn set_default_account(&mut self, label: &str) -> (res: Result<(), ConfigError>)
        ensures
            final(self).accounts@ == old(self).accounts@,
            final(self).default_version == old(self).default_version,
            final(self).versions == old(self).versions,
            final(self).use_keychain == old(self).use_keychain,
            if old(self).accounts@.dom().contains(label@) {
                res is Ok && opt_view(final(self).default_account) == Some(label@)
            } else {
                res matches Err(ConfigError::AccountNotFound(x)) && x@ == label@
                    && final(self).default_account == old(self).default_account
            },
    {
        if !self.accounts.contains_key(label) {
            return Err(ConfigError::AccountNotFound(label.to_owned()));
        }
        self.default_account = Some(label.to_owned());
        Ok(())
    }

    /// The first installed version with build `build`.
    pub fn find_version(&self, build: &str) -> (res: Option<&Version>)
        ensures
            match res {
                Some(v) => exists|i: int| 0 <= i < self.versions@.len() && self.versions@[i] == *v
                    && v.build@ == build@
                    && forall|j: int| 0 <= j < i ==> (#[trigger] self.versions@[j]).build@ != build@,
                None => !has_build(self.versions@, build@),
            },
    {
        let mut i: usize = 0;
        while i < self.versions.len()
            invariant
                i <= self.versions@.len(),
                forall|j: int| 0 <= j < i ==> (#[trigger] self.versions@[j]).build@ != build@,
            decreases self.versions@.len() - i,
        {
            if str_eq(self.versions[i].build.as_str(), build) {
                return Some(&self.versions[i]);
            }
            i = i + 1;
        }
        None
    }

    /// Records an installed version: any version with the same build is
    /// replaced by this one at the end, and it becomes the default version
    /// when none is set.
    pub fn record_version(&mut self, channel: String, build: String, install_path: String)
        ensures
            final(self).versions@ == without_build(old(self).versions@, build@).push(
                Version { channel, build, install_path },
            ),
            opt_view(final(self).default_version) == match old(self).default_version {
                Some(d) => Some(d@),
                None => Some(build@),
            },
            final(self).accounts == old(self).accounts,
            final(self).default_account == old(self).default_account,
            final(self).use_keychain == old(self).use_keychain,
    {
        let mut kept = versions_without(&self.versions, build.as_str());
        if self.default_version.is_none() {
            self.default_version = Some(build.clone());
        }
        kept.push(Version { channel, build, install_path });
        self.versions = kept;
    }

    /// Stops tracking the versions with build `build`, and unsets the
    /// default version if it was that build.
    pub fn untrack_version(&mut self, build: &str) -> (res: Result<(), ConfigError>)
        ensures
            final(self).accounts == old(self).accounts,
            final(self).default_account == old(self).default_account,
            final(self).use_keychain == old(self).use_keychain,
            if has_build(old(self).versions@, build@) {
                &&& res is Ok
                &&& final(self).versions@ == without_build(old(self).versions@, build@)
                &&& final(self).default_version == if old(self).default_version matches Some(d) && d@ == build@ {
                    None
                } else {
                    old(self).default_version
                }
            } else {
                &&& res matches Err(ConfigError::VersionNotInstalled(x)) && x@ == build@
                &&& final(self).versions == old(self).versions
                &&& final(self).default_version == old(self).default_version
            },
    {
        if self.find_version(build).is_none() {
            return Err(ConfigError::VersionNotInstalled(build.to_owned()));
        }
        self.versions = versions_without(&self.versions, build);
        let is_default = match &self.default_version {
            Some(d) => str_eq(d.as_str(), build),
            None => false,
        };
        if is_default {
            self.default_version = None;
        }
        Ok(())
    }

    /// Keeps only the most recently installed version. Returns `None` when
    /// there is at most one version (nothing changes), else the versions
    /// dropped; a default version among them becomes the kept one.
    pub fn prune_versions(&mut self) -> (res: Option<Vec<Version>>)
        ensures
            final(self).accounts == old(self).accounts,
            final(self).default_account == old(self).default_account,
            final(self).use_keychain == old(self).use_keychain,
            if old(self).versions@.len() <= 1 {
                res is None && final(self).versions == old(self).versions
                    && final(self).default_version == old(self).default_version
            } else {
                let vs = old(self).versions@;
                let keep = vs.last();
                let dropped = vs.drop_last();
                &&& res matches Some(r) && r@ == dropped
                &&& final(self).versions@ == seq![keep]
                &&& opt_view(final(self).default_version) == match old(self).default_version {
                    Some(d) => if has_build(dropped, d@) {
                        Some(keep.build@)
                    } else {
                        Some(d@)
                    },
                    None => None,
                }
            },
    {
        let n = self.versions.len();
        if n <= 1 {
            return None;
        }
        let mut versions: Vec<Version> = Vec::new();
        std::mem::swap(&mut versions, &mut self.versions);
        let ghost vs = versions@;
        let keep = versions.pop().unwrap();
        assert(versions@ =~= vs.drop_last());
        let dropped = versions;
        let replace = match &self.default_version {
            Some(d) => {
                let mut found = false;
                let mut i: usize = 0;
                while i < dropped.len()
                    invariant
                        i <= dropped@.len(),
                        found == exists|j: int| 0 <= j < i && (#[trigger] dropped@[j]).build@ == d@,
                    decreases dropped@.len() - i,
                {
                    if str_eq(dropped[i].build.as_str(), d.as_str()) {
                        found = true;
                    }
                    i = i + 1;
                }
                found
            },
            None => false,
        };
        if replace {
            self.default_version = Some(keep.build.clone());
        }
        let mut kept: Vec<Version> = Vec::new();
        kept.push(keep);
        self.versions = kept;
        Some(dropped)
    }
}

// ── Laws ────────────────────────────────────────────────────────────────

/// An account just added is the one its label resolves to.
pub proof fn law_added_account_resolves(accounts: Map<Seq<char>, Account>, account: Account)
    ensures
        accounts.insert(account.label@, account).dom().contains(account.label@),
        accounts.insert(account.label@, account)[account.label@] == account,
{
}

/// The first account registered becomes the default account, so that a
/// command naming no account uses it.
pub proof fn law_first_registered_account_is_default(
    accounts: Map<Seq<char>, Account>,
    default_account: Option<String>,
    account: Account,
)
    requires
        default_account is None,
    ensures
        ({
            let new_default = match default_account {
                Some(d) => Some(d@),
                None => Some(account.label@),
            };
            &&& new_default == Some(account.label@)
            &&& accounts.insert(account.label@, account).dom().contains(new_default->0)
            &&& accounts.insert(account.label@, account)[new_default->0] == account
        }),
{
}

/// Adding an account leaves the other labels as they were.
pub proof fn law_add_keeps_others(accounts: Map<Seq<char>, Account>, account: Account, other: Seq<char>)
    requires
        other != account.label@,
    ensures
        accounts.insert(account.label@, account).dom().contains(other) == accounts.dom().contains(other),
        accounts.dom().contains(other) ==> accounts.insert(account.label@, account)[other] == accounts[other],
{
}

/// Adding an account grows the number of accounts by one exactly when its
/// label was new, and leaves it as it was when the account replaces one.
pub proof fn law_add_account_count(accounts: Accounts, account: Account)
    ensures
        accounts@.insert(account.label@, account).len() == accounts@.len() + (if accounts@.dom().contains(
            account.label@,
        ) {
            0int
        } else {
            1int
        }),
{
    lemma_entries_map_finite(accounts.pairs());
}

/// A removed account is gone, and is no longer the default account.
pub proof fn law_removed_account_is_gone(accounts: Map<Seq<char>, Account>, default_account: Option<String>, label: Seq<char>)
    ensures
        !accounts.remove(label).dom().contains(label),
        !((if default_account matches Some(d) && d@ == label { None } else { default_account }) matches Some(d)
            && d@ == label),
{
}

/// Loading tokens neither adds nor removes accounts, and leaves every
/// account as it was but for its tokens.
pub proof fn law_loading_tokens_keeps_accounts(m: Map<Seq<char>, Account>, stored: Seq<(String, Tokens)>)
    ensures
        with_stored_tokens(m, stored).dom() == m.dom(),
        forall|k: Seq<char>| #[trigger] m.dom().contains(k) ==> {
            let a = with_stored_tokens(m, stored)[k];
            &&& a.label == m[k].label
            &&& a.client_id == m[k].client_id
            &&& a.profiles == m[k].profiles
            &&& a.default_profile == m[k].default_profile
        },
    decreases stored.len(),
{
    if stored.len() > 0 {
        let m1 = with_tokens(m, stored[0].0@, stored[0].1);
        law_loading_tokens_keeps_accounts(m1, stored.drop_first());
        assert(m1.dom() =~= m.dom());
    }
}

/// After loading, an account with stored tokens has exactly the tokens of
/// its last stored entry, every field of them, and an account without a
/// stored entry keeps the tokens it had.
pub proof fn law_loaded_tokens_are_last_stored(m: Map<Seq<char>, Account>, stored: Seq<(String, Tokens)>, k: Seq<char>)
    requires
        m.dom().contains(k),
    ensures
        with_stored_tokens(m, stored).dom().contains(k),
        forall|i: int|
            0 <= i < stored.len() && (#[trigger] stored[i]).0@ == k && (forall|j: int|
                i < j < stored.len() ==> (#[trigger] stored[j]).0@ != k) ==> with_stored_tokens(m, stored)[k].tokens
                == stored[i].1,
        (forall|j: int| 0 <= j < stored.len() ==> (#[trigger] stored[j]).0@ != k) ==> with_stored_tokens(m, stored)[k].tokens
            == m[k].tokens,
    decreases stored.len(),
{
    if stored.len() > 0 {
        let m1 = with_tokens(m, stored[0].0@, stored[0].1);
        let rest = stored.drop_first();
        assert(m1.dom().contains(k));
        law_loaded_tokens_are_last_stored(m1, rest, k);
        assert forall|i: int|
            0 <= i < stored.len() && (#[trigger] stored[i]).0@ == k && (forall|j: int|
                i < j < stored.len() ==> (#[trigger] stored[j]).0@ != k) implies with_stored_tokens(m, stored)[k].tokens
                == stored[i].1 by {
            if i == 0 {
                assert forall|j: int| 0 <= j < rest.len() implies (#[trigger] rest[j]).0@ != k by {
                    assert(rest[j] == stored[j + 1]);
                }
                assert(m1[k].tokens == stored[0].1);
            } else {
                assert(rest[i - 1] == stored[i]);
                assert forall|j: int| i - 1 < j < rest.len() implies (#[trigger] rest[j]).0@ != k by {
                    assert(rest[j] == stored[j + 1]);
                }
            }
        }
        if forall|j: int| 0 <= j < stored.len() ==> (#[trigger] stored[j]).0@ != k {
            assert(stored[0].0@ != k);
            assert forall|j: int| 0 <= j < rest.len() implies (#[trigger] rest[j]).0@ != k by {
                assert(rest[j] == stored[j + 1]);
            }
            assert(m1[k] == m[k]);
        }
    }
}

/// `without_build` keeps exactly the versions whose build differs.
proof fn lemma_without_build(vs: Seq<Version>, b: Seq<char>)
    ensures
        !has_build(without_build(vs, b), b),
        forall|c: Seq<char>| c != b ==> (has_build(without_build(vs, b), c) == has_build(vs, c)),
    decreases vs.len(),
{
    reveal(Seq::filter);
    if vs.len() > 0 {
        lemma_without_build(vs.drop_last(), b);
        let w = without_build(vs.drop_last(), b);
        assert forall|c: Seq<char>| c != b implies (has_build(without_build(vs, b), c) == has_build(vs, c)) by {
            if has_build(vs, c) {
                let i = choose|i: int| 0 <= i < vs.len() && (#[trigger] vs[i]).build@ == c;
                if i < vs.len() - 1 {
                    assert(vs.drop_last()[i].build@ == c);
                    assert(has_build(vs.drop_last(), c));
                    assert(has_build(w, c));
                    let j = choose|j: int| 0 <= j < w.len() && (#[trigger] w[j]).build@ == c;
                    assert(without_build(vs, b)[j] == w[j]);
                    assert(without_build(vs, b)[j].build@ == c);
                } else {
                    assert(without_build(vs, b).last() == vs.last());
                }
            }
            if has_build(without_build(vs, b), c) {
                let j = choose|j: int| 0 <= j < without_build(vs, b).len() && (#[trigger] without_build(vs, b)[j]).build@ == c;
                if j < w.len() {
                    assert(without_build(vs, b)[j] == w[j]);
                    assert(w[j].build@ == c);
                    assert(has_build(w, c));
                    assert(has_build(vs.drop_last(), c));
                    let i = choose|i: int| 0 <= i < vs.drop_last().len() && (#[trigger] vs.drop_last()[i]).build@ == c;
                    assert(vs[i] == vs.drop_last()[i]);
                    assert(vs[i].build@ == c);
                } else {
                    assert(vs[vs.len() - 1].build@ == c);
                }
            }
        }
        if has_build(without_build(vs, b), b) {
            let j = choose|j: int| 0 <= j < without_build(vs, b).len() && (#[trigger] without_build(vs, b)[j]).build@ == b;
            if j < w.len() {
                assert(w[j].build@ == b);
            }
        }
    }
}

/// After a version is recorded, exactly one version has its build: the
/// last one, which is the version recorded.
pub proof fn law_recorded_version_is_unique(vs: Seq<Version>, v: Version)
    ensures
        ({
            let after = without_build(vs, v.build@).push(v);
            &&& after.last() == v
            &&& forall|i: int| 0 <= i < after.len() - 1 ==> (#[trigger] after[i]).build@ != v.build@
        }),
{
    lemma_without_build(vs, v.build@);
    let w = without_build(vs, v.build@);
    assert forall|i: int| 0 <= i < w.len() implies (#[trigger] w.push(v)[i]).build@ != v.build@ by {
        assert(w.push(v)[i] == w[i]);
    }
}

/// After a build is untracked, no version has it, and every other build is
/// tracked as before.
pub proof fn law_untracked_build_is_gone(vs: Seq<Version>, b: Seq<char>)
    ensures
        !has_build(without_build(vs, b), b),
        forall|c: Seq<char>| c != b ==> (has_build(without_build(vs, b), c) == has_build(vs, c)),
{
    lemma_without_build(vs, b);
}

/// After pruning, a default version that named an installed version names
/// the version that was kept.
pub proof fn law_prune_keeps_default_installed(vs: Seq<Version>, d: Seq<char>)
    requires
        vs.len() > 1,
        has_build(vs, d),
    ensures
        (if has_build(vs.drop_last(), d) { vs.last().build@ } else { d }) == vs.last().build@,
{
    if !has_build(vs.drop_last(), d) {
        let i = choose|i: int| 0 <= i < vs.len() && (#[trigger] vs[i]).build@ == d;
        if i < vs.len() - 1 {
            assert(vs.drop_last()[i].build@ == d);
        }
    }
}

impl Config {
    /// The account and profile a launch uses: the account holding the named
    /// profile (preferring the default account), or the default account
    /// with its default profile.
    pub fn launch_identity(&self, profile: Option<&str>) -> (res: Result<(&Account, &Profile), ConfigError>)
        ensures
            match profile {
                Some(p) => match res {
                    Ok((a, pr)) => is_account_of(self.accounts@, *a)
                        && exists|i: int| is_first_match(a.profiles@, i, p@) && a.profiles@[i] == *pr,
                    Err(e) => e matches ConfigError::ProfileNotInAnyAccount(x) && x@ == p@
                        && forall|k: Seq<char>| #[trigger] self.accounts@.dom().contains(k)
                            ==> !has_match(self.accounts@[k].profiles@, p@),
                },
                None => match self.default_account {
                    None => res matches Err(ConfigError::NoDefaultAccount),
                    Some(d) => if !self.accounts@.dom().contains(d@) {
                        res matches Err(ConfigError::DefaultAccountNotFound(x)) && x@ == d@
                    } else {
                        let a = self.accounts@[d@];
                        match a.default_profile {
                            None => res matches Err(ConfigError::NoDefaultProfile { account: l }) && l@ == a.label@,
                            Some(u) => if exists|i: int| 0 <= i < a.profiles@.len() && (#[trigger] a.profiles@[i]).uuid@ == u@ {
                                res matches Ok((ra, rp)) && *ra == a
                                    && exists|i: int| is_first_uuid(a.profiles@, i, u@) && a.profiles@[i] == *rp
                            } else {
                                res matches Err(ConfigError::DefaultProfileNotFound { uuid: x, account: l })
                                    && x@ == u@ && l@ == a.label@
                            },
                        }
                    },
                },
            },
            (profile matches Some(p) && self.default_account matches Some(d) && self.accounts@.dom().contains(d@)
                && has_match(self.accounts@[d@].profiles@, p@))
                ==> (res matches Ok((a, _)) && *a == self.accounts@[self.default_account->0@]),
    {
        match profile {
            Some(p) => match self.find_account_for_profile(p) {
                Some(found) => Ok(found),
                None => Err(ConfigError::ProfileNotInAnyAccount(p.to_owned())),
            },
            None => {
                let account = self.resolve_account(None)?;
                let prof = self.resolve_profile(account, None)?;
                Ok((account, prof))
            },
        }
    }

    /// The account a server runs as: the account holding the named profile
    /// (preferring the default account), or the default account.
    pub fn serve_account(&self, profile: Option<&str>) -> (res: Result<&Account, ConfigError>)
        ensures
            match profile {
                Some(p) => match res {
                    Ok(a) => is_account_of(self.accounts@, *a) && has_match(a.profiles@, p@),
                    Err(e) => e matches ConfigError::ProfileNotInAnyAccount(x) && x@ == p@
                        && forall|k: Seq<char>| #[trigger] self.accounts@.dom().contains(k)
                            ==> !has_match(self.accounts@[k].profiles@, p@),
                },
                None => match self.default_account {
                    None => res matches Err(ConfigError::NoDefaultAccount),
                    Some(d) => if self.accounts@.dom().contains(d@) {
                        res matches Ok(a) && *a == self.accounts@[d@]
                    } else {
                        res matches Err(ConfigError::DefaultAccountNotFound(x)) && x@ == d@
                    },
                },
            },
            (profile matches Some(p) && self.default_account matches Some(d) && self.accounts@.dom().contains(d@)
                && has_match(self.accounts@[d@].profiles@, p@))
                ==> (res matches Ok(a) && *a == self.accounts@[self.default_account->0@]),
    {
        match profile {
            Some(p) => match self.find_account_for_profile(p) {
                Some((a, _)) => Ok(a),
                None => Err(ConfigError::ProfileNotInAnyAccount(p.to_owned())),
            },
            None => self.resolve_account(None),
        }
    }

    /// The version a command uses: the one named, else the default version.
    pub fn version_spec<'a>(&'a self, version: Option<&'a str>) -> (res: Result<&'a str, ConfigError>)
        ensures
            match version {
                Some(v) => res matches Ok(r) && r@ == v@,
                None => match self.default_version {
                    Some(d) => res matches Ok(r) && r@ == d@,
                    None => res matches Err(ConfigError::NoVersion),
                },
            },
    {
        match version {
            Some(v) => Ok(v),
            None => match &self.default_version {
                Some(d) => Ok(d.as_str()),
                None => Err(ConfigError::NoVersion),
            },
        }
    }

    /// The token files to write: each account's label with its tokens.
    pub fn token_entries(&self) -> (res: Vec<(String, &Tokens)>)
        ensures
            forall|i: int| 0 <= i < res@.len() ==> #[trigger] self.accounts@.dom().contains(res@[i].0@)
                && *res@[i].1 == self.accounts@[res@[i].0@].tokens,
            forall|k: Seq<char>| #[trigger] self.accounts@.dom().contains(k) ==> exists|i: int| 0 <= i < res@.len() && res@[i].0@ == k,
    {
        proof {
            use_type_invariant(&self.accounts);
            self.accounts.lemma_pairs_distinct();
            lemma_map_len(self.accounts.pairs());
        }
        let n = self.accounts.len();
        let mut out: Vec<(String, &Tokens)> = Vec::new();
        let mut i: usize = 0;
        while i < n
            invariant
                n == self.accounts.pairs().len(),
                i <= n,
                labels_distinct(self.accounts.pairs()),
                out@.len() == i,
                forall|j: int| 0 <= j < i ==> (#[trigger] out@[j]).0@ == self.accounts.pairs()[j].0@
                    && *out@[j].1 == self.accounts.pairs()[j].1.tokens,
            decreases n - i,
        {
            let account = self.accounts.account_at(i);
            let label = self.accounts.labels[i].clone();
            out.push((label, &account.tokens));
            i = i + 1;
        }
        proof {
            assert forall|j: int| 0 <= j < out@.len() implies #[trigger] self.accounts@.dom().contains(out@[j].0@)
                && *out@[j].1 == self.accounts@[out@[j].0@].tokens by {
                lemma_entries_map_at(self.accounts.pairs(), j);
            }
            assert forall|k: Seq<char>| #[trigger] self.accounts@.dom().contains(k) implies exists|j: int| 0 <= j < out@.len() && out@[j].0@ == k by {
                self.accounts.lemma_mapped_at(k);
                let j = choose|j: int| 0 <= j < self.accounts.pairs().len() && self.accounts.pairs()[j].0@ == k && self.accounts.pairs()[j].1 == self.accounts@[k];
                assert(out@[j].0@ == k);
            }
        }
        out
    }
}

} // verus!
