//! The authentication store: a hash for each user name, and the session keys
//! that were issued, each with the time at which it was last used.
//!
//! Times are counted in seconds. A user's salt is kept elsewhere and handed in
//! with each password.

use vstd::prelude::*;
use vstd::string::StringSliceAdditionalSpecFns;
use crate::listing::{append_lines, lines, list_once};
use crate::random::{drawn_from, sample_chars};
use crate::seqs::{first_where, lemma_first_where, lemma_first_where_is, lemma_first_where_none};
use crate::text::{chars_of, decimal, decimal_string};

verus! {

pub const DEFAULT_KEY_LENGTH: usize = 32;

pub const DEFAULT_KEY_LIFE_SECONDS: u64 = 1200;

/// The characters of which keys are made unless others are set: the 89
/// letters, digits and marks that need no escaping where a key travels. The
/// comma is not among them: it separates the values of a header field, and a
/// key is sent as one.
pub open spec fn default_key_alphabet() -> Seq<char> {
    "abcdefghijklmnopqrstuvwxyzABCDEFGHIJKLMNOPQRSTUVWXYZ0123456789!@#$%^&*()-_=+[]{}|/?;:.<>~"@
}

/// The characters of which keys are made unless others are set.
pub fn default_key_chars() -> (r: &'static str)
    ensures
        r@ == default_key_alphabet(),
        r@.len() == 89,
{
    let s = "abcdefghijklmnopqrstuvwxyzABCDEFGHIJKLMNOPQRSTUVWXYZ0123456789!@#$%^&*()-_=+[]{}|/?;:.<>~";
    proof {
        reveal_strlit(
            "abcdefghijklmnopqrstuvwxyzABCDEFGHIJKLMNOPQRSTUVWXYZ0123456789!@#$%^&*()-_=+[]{}|/?;:.<>~",
        );
    }
    s
}

/// The BLAKE3 hash of `input`, written as 64 lowercase hexadecimal digits.
pub uninterp spec fn blake3_hex(input: Seq<u8>) -> Seq<char>;

/// Calls `blake3::hash` on `input` and writes the result with
/// `blake3::Hash::to_hex`. The contract names the result after the input, and
/// claims that it is 64 characters long: two for each of the hash's 32 bytes.
#[verifier::external_body]
fn blake3_digest(input: &[u8]) -> (r: String)
    ensures
        r@ == blake3_hex(input@),
        r@.len() == 64,
{
    String::from(blake3::hash(input).to_hex().as_str())
}

/// The hash that is stored for a password: that of the password's bytes
/// followed by the salt's.
pub open spec fn salted_hash(pwd: Seq<u8>, salt: Seq<u8>) -> Seq<char> {
    blake3_hex(pwd + salt)
}

pub fn hash_with_salt(pwd: &str, salt: &[u8]) -> (r: String)
    ensures
        r@ == salted_hash(pwd.spec_bytes(), salt@),
        r@.len() == 64,
{
    let mut bytes: Vec<u8> = Vec::new();
    bytes.extend_from_slice(pwd.as_bytes());
    bytes.extend_from_slice(salt);
    assert(bytes@ =~= pwd.spec_bytes() + salt@);
    blake3_digest(bytes.as_slice())
}

/// What went wrong in the authentication store, in words.
#[derive(Debug, PartialEq)]
pub struct DbError(pub String);

impl DbError {
    pub fn display(&self) -> (r: &str)
        ensures
            r@ == self.0@,
    {
        self.0.as_str()
    }
}

/// Possible results of attempting to authenticate.
#[derive(Debug, PartialEq)]
pub enum AuthResult {
    /// Password or key authentication successful.
    Okay,
    /// Password successful; issuing key.
    Key(String),
    NoSuchUser,
    BadPassword,
    InvalidKey,
}

/// A user's entry: the name and the hash of the salted password.
#[derive(Debug)]
pub struct Credential {
    pub uname: String,
    pub hash: String,
}

impl Clone for Credential {
    fn clone(&self) -> (r: Self)
        ensures
            r == *self,
    {
        Credential { uname: self.uname.clone(), hash: self.hash.clone() }
    }
}

/// A session key, the user it was issued to, and when it was last used.
#[derive(Debug)]
pub struct KeyRow {
    pub key: String,
    pub uname: String,
    pub last_used: u64,
}

impl Clone for KeyRow {
    fn clone(&self) -> (r: Self)
        ensures
            r == *self,
    {
        KeyRow { key: self.key.clone(), uname: self.uname.clone(), last_used: self.last_used }
    }
}

pub struct Db {
    pub connection_string: String,
    pub key_chars: Vec<char>,
    pub key_length: usize,
    /// How long a key stays good after its last use, in seconds.
    pub key_life: u64,
    pub users: Vec<Credential>,
    pub keys: Vec<KeyRow>,
}

/// The entry is that of the user named `uname`.
pub open spec fn entry_of(uname: Seq<char>) -> spec_fn(Credential) -> bool {
    |c: Credential| c.uname@ == uname
}

/// The row is that of the key `key` of the user named `uname`.
pub open spec fn row_of(uname: Seq<char>, key: Seq<char>) -> spec_fn(KeyRow) -> bool {
    |k: KeyRow| k.uname@ == uname && k.key@ == key
}

/// The place of the entry of the user named `uname`.
pub open spec fn credential_index(users: Seq<Credential>, uname: Seq<char>) -> Option<int> {
    first_where(users, entry_of(uname))
}

/// The place of the key `key` of the user named `uname`.
pub open spec fn key_index(keys: Seq<KeyRow>, uname: Seq<char>, key: Seq<char>) -> Option<int> {
    first_where(keys, row_of(uname, key))
}

/// `credential_index` finds the first entry of the user, or the user has none.
pub proof fn lemma_credential_index(users: Seq<Credential>, uname: Seq<char>)
    ensures
        match credential_index(users, uname) {
            Some(i) => 0 <= i < users.len() && users[i].uname@ == uname && forall|k: int|
                0 <= k < i ==> (#[trigger] users[k]).uname@ != uname,
            None => forall|k: int| 0 <= k < users.len() ==> (#[trigger] users[k]).uname@ != uname,
        },
{
    let p = entry_of(uname);
    lemma_first_where(users, p);
    match first_where(users, p) {
        Some(i) => {
            assert(p(users[i]));
            assert forall|k: int| 0 <= k < i implies (#[trigger] users[k]).uname@ != uname by {
                assert(!p(users[k]));
            }
        },
        None => {
            assert forall|k: int| 0 <= k < users.len() implies (#[trigger] users[k]).uname@
                != uname by {
                assert(!p(users[k]));
            }
        },
    }
}

/// `key_index` finds the first row of the user's key, or there is none.
pub proof fn lemma_key_index(keys: Seq<KeyRow>, uname: Seq<char>, key: Seq<char>)
    ensures
        match key_index(keys, uname, key) {
            Some(i) => 0 <= i < keys.len() && keys[i].uname@ == uname && keys[i].key@ == key
                && forall|k: int|
                0 <= k < i ==> !((#[trigger] keys[k]).uname@ == uname && keys[k].key@ == key),
            None => forall|k: int|
                0 <= k < keys.len() ==> !((#[trigger] keys[k]).uname@ == uname && keys[k].key@
                    == key),
        },
{
    let p = row_of(uname, key);
    lemma_first_where(keys, p);
    match first_where(keys, p) {
        Some(i) => {
            assert(p(keys[i]));
            assert forall|k: int| 0 <= k < i implies !((#[trigger] keys[k]).uname@ == uname
                && keys[k].key@ == key) by {
                assert(!p(keys[k]));
            }
        },
        None => {
            assert forall|k: int| 0 <= k < keys.len() implies !((#[trigger] keys[k]).uname@
                == uname && keys[k].key@ == key) by {
                assert(!p(keys[k]));
            }
        },
    }
}

/// A key is live at `now` while less than `life` has passed since its last use.
pub open spec fn is_live(last_used: u64, life: u64, now: u64) -> bool {
    last_used + life > now
}

/// No two entries are of one user.
pub open spec fn distinct_credentials(users: Seq<Credential>) -> bool {
    forall|i: int, j: int|
        0 <= i < j < users.len() ==> (#[trigger] users[i]).uname@ != (#[trigger] users[j]).uname@
}

/// No user holds one key twice.
pub open spec fn distinct_keys(keys: Seq<KeyRow>) -> bool {
    forall|i: int, j: int|
        0 <= i < j < keys.len() ==> !((#[trigger] keys[i]).uname@ == (#[trigger] keys[j]).uname@
            && keys[i].key@ == keys[j].key@)
}

/// Every key belongs to a user who has an entry.
pub open spec fn keys_have_users(keys: Seq<KeyRow>, users: Seq<Credential>) -> bool {
    forall|i: int| 0 <= i < keys.len() ==> credential_index(users, (#[trigger] keys[i]).uname@) is Some
}

/// What checking a password comes to: the user is unknown, or the hash of the
/// password with the salt handed in is or is not the one stored.
pub open spec fn password_verdict(
    users: Seq<Credential>,
    uname: Seq<char>,
    pwd: Seq<u8>,
    salt: Seq<u8>,
) -> AuthResult {
    match credential_index(users, uname) {
        None => AuthResult::NoSuchUser,
        Some(i) => if users[i].hash@ == salted_hash(pwd, salt) {
            AuthResult::Okay
        } else {
            AuthResult::BadPassword
        },
    }
}

/// Whether the key is good at `now`: it was issued to the user and is live.
pub open spec fn key_is_good(keys: Seq<KeyRow>, uname: Seq<char>, key: Seq<char>, life: u64, now: u64) -> bool {
    match key_index(keys, uname, key) {
        None => false,
        Some(i) => is_live(keys[i].last_used, life, now),
    }
}

/// The keys after `key` of `uname` was used at `now`: a good key is marked as
/// used now, and every other row stays as it is.
pub open spec fn keys_after_use(keys: Seq<KeyRow>, uname: Seq<char>, key: Seq<char>, life: u64, now: u64) -> Seq<KeyRow> {
    match key_index(keys, uname, key) {
        None => keys,
        Some(i) => if is_live(keys[i].last_used, life, now) {
            keys.update(i, KeyRow { key: keys[i].key, uname: keys[i].uname, last_used: now })
        } else {
            keys
        },
    }
}

/// The rows that culling keeps: those whose life has not run out before `now`.
pub open spec fn kept_keys(keys: Seq<KeyRow>, life: u64, now: u64) -> Seq<KeyRow> {
    keys.filter(key_kept(life, now))
}

/// The key's life has not run out before `now`.
pub open spec fn key_kept(life: u64, now: u64) -> spec_fn(KeyRow) -> bool {
    |k: KeyRow| !(k.last_used + life < now)
}

/// The key is of a user who is not among `unames`.
pub open spec fn key_of_other(unames: Seq<&str>) -> spec_fn(KeyRow) -> bool {
    |k: KeyRow| !named_in(unames, k.uname@)
}

/// The entry is of a user who is not among `unames`.
pub open spec fn entry_of_other(unames: Seq<&str>) -> spec_fn(Credential) -> bool {
    |c: Credential| !named_in(unames, c.uname@)
}

/// Whether `name` is one of `names`.
pub open spec fn named_in(names: Seq<&str>, name: Seq<char>) -> bool {
    exists|i: int| 0 <= i < names.len() && (#[trigger] names[i])@ == name
}

/// The keys of the users who are not among `unames`.
pub open spec fn keys_without(keys: Seq<KeyRow>, unames: Seq<&str>) -> Seq<KeyRow> {
    keys.filter(key_of_other(unames))
}

/// The entries of the users who are not among `unames`.
pub open spec fn entries_without(users: Seq<Credential>, unames: Seq<&str>) -> Seq<Credential> {
    users.filter(entry_of_other(unames))
}

/// A batch of new names collides where one of them has an entry already or
/// occurs twice in the batch.
pub open spec fn batch_collides(users: Seq<Credential>, unames: Seq<&str>) -> bool {
    ||| exists|i: int| 0 <= i < unames.len() && credential_index(users, (#[trigger] unames[i])@) is Some
    ||| exists|i: int, j: int| 0 <= i < j < unames.len() && (#[trigger] unames[i])@ == (#[trigger] unames[j])@
}

/// The texts of a list of string slices.
pub open spec fn strs_view(s: Seq<&str>) -> Seq<Seq<char>> {
    Seq::new(s.len(), |i: int| s[i]@)
}

/// The names of a batch that collide, each once, in the order of the batch:
/// those that have an entry already and those that an earlier name of the
/// batch equals.
pub open spec fn colliding(users: Seq<Credential>, names: Seq<Seq<char>>) -> Seq<Seq<char>>
    decreases names.len(),
{
    if names.len() == 0 {
        Seq::empty()
    } else {
        let head = colliding(users, names.drop_last());
        let name = names.last();
        if (credential_index(users, name) is Some || names.drop_last().contains(name))
            && !head.contains(name) {
            head.push(name)
        } else {
            head
        }
    }
}

/// The words in which two lists of different lengths are refused: they say
/// what the lists hold, and how many each holds.
pub open spec fn unequal_counts(first: Seq<char>, n: nat, second: Seq<char>, m: nat) -> Seq<char> {
    "Number of "@ + first + " ("@ + decimal(n) + ") and "@ + second + " ("@ + decimal(m)
        + ") must match."@
}

/// The words in which two lists of different lengths are refused.
fn counts_differ(first: &str, n: usize, second: &str, m: usize) -> (r: String)
    ensures
        r@ == unequal_counts(first@, n as nat, second@, m as nat),
{
    let mut msg = String::from_str("Number of ");
    msg.append(first);
    msg.append(" (");
    msg.append(decimal_string(n as u64).as_str());
    msg.append(") and ");
    msg.append(second);
    msg.append(" (");
    msg.append(decimal_string(m as u64).as_str());
    msg.append(") must match.");
    msg
}

/// The words in which a batch of new users is refused, if it is.
pub open spec fn add_users_refusal(
    users: Seq<Credential>,
    unames: Seq<&str>,
    passwords: Seq<&str>,
    salts: Seq<&str>,
) -> Option<Seq<char>> {
    if unames.len() != passwords.len() {
        Some(unequal_counts("unames"@, unames.len(), "passwords"@, passwords.len()))
    } else if passwords.len() != salts.len() {
        Some(unequal_counts("passwords"@, passwords.len(), "salts"@, salts.len()))
    } else if batch_collides(users, unames) {
        Some("Database already contains unames:\n"@ + lines(colliding(users, strs_view(unames))))
    } else {
        None
    }
}

/// `after` is `before` with `key` on record as issued to `uname` and used
/// at `now`: behind the other keys, unless the user held this very key, whose
/// row is then the one that changed.
pub open spec fn keys_issued(
    before: Seq<KeyRow>,
    after: Seq<KeyRow>,
    uname: Seq<char>,
    key: Seq<char>,
    now: u64,
) -> bool {
    match key_index(before, uname, key) {
        Some(i) => after == before.update(
            i,
            KeyRow { key: before[i].key, uname: before[i].uname, last_used: now },
        ),
        None => {
            &&& after.len() == before.len() + 1
            &&& after.take(before.len() as int) == before
            &&& after.last().uname@ == uname
            &&& after.last().key@ == key
            &&& after.last().last_used == now
        },
    }
}

/// The words in which a user without an entry is missed.
pub open spec fn no_such_user(uname: Seq<char>) -> Seq<char> {
    "There is no user with uname "@ + uname + "."@
}

/// The entries `users` followed by one for each of the first `n` of the batch.
pub open spec fn with_batch(
    users: Seq<Credential>,
    after: Seq<Credential>,
    unames: Seq<&str>,
    passwords: Seq<&str>,
    salts: Seq<&str>,
    n: int,
) -> bool {
    &&& after.len() == users.len() + n
    &&& after.take(users.len() as int) == users
    &&& forall|i: int|
        0 <= i < n ==> (#[trigger] after[users.len() + i]).uname@ == unames[i]@ && after[users.len()
            + i].hash@ == salted_hash(passwords[i].spec_bytes(), salts[i].spec_bytes())
}

/// Compares two texts without stopping at the first difference.
pub fn constant_time_eq(a: &str, b: &str) -> (r: bool)
    ensures
        r == (a@ == b@),
{
    let x = chars_of(a);
    let y = chars_of(b);
    if x.len() != y.len() {
        return false;
    }
    let n = x.len();
    let mut same = true;
    let mut i: usize = 0;
    assert(x@.take(0) =~= y@.take(0));
    while i < n
        invariant
            i <= n == x@.len() == y@.len(),
            same <==> x@.take(i as int) == y@.take(i as int),
        decreases n - i,
    {
        proof {
            assert(x@.take(i + 1) =~= x@.take(i as int).push(x@[i as int]));
            assert(y@.take(i + 1) =~= y@.take(i as int).push(y@[i as int]));
            if x@.take(i + 1) == y@.take(i + 1) {
                assert(x@.take(i + 1).drop_last() =~= x@.take(i as int));
                assert(y@.take(i + 1).drop_last() =~= y@.take(i as int));
                assert(x@.take(i + 1).last() == x@[i as int]);
                assert(y@.take(i + 1).last() == y@[i as int]);
            }
        }
        if x[i] != y[i] {
            same = false;
        }
        i += 1;
    }
    assert(x@.take(n as int) =~= x@);
    assert(y@.take(n as int) =~= y@);
    same
}

/// The place of the first name of the batch that has an entry already or
/// that an earlier name of the batch equals.
fn first_collision(users: &Vec<Credential>, unames: &[&str]) -> (r: Option<usize>)
    ensures
        r is Some <==> batch_collides(users@, unames@),
        r matches Some(i) ==> i < unames@.len(),
{
    let n = unames.len();
    let mut i: usize = 0;
    while i < n
        invariant
            i <= n == unames@.len(),
            forall|a: int| 0 <= a < i ==> credential_index(users@, (#[trigger] unames@[a])@) is None,
            forall|a: int, b: int|
                0 <= a < b < i ==> (#[trigger] unames@[a])@ != (#[trigger] unames@[b])@,
        decreases n - i,
    {
        if find_credential(users, unames[i]).is_some() {
            return Some(i);
        }
        let mut j: usize = 0;
        while j < i
            invariant
                j <= i < n == unames@.len(),
                forall|a: int| 0 <= a < j ==> (#[trigger] unames@[a])@ != unames@[i as int]@,
            decreases i - j,
        {
            if unames[j].eq(unames[i]) {
                return Some(i);
            }
            j += 1;
        }
        i += 1;
    }
    None
}

/// The names of the batch that collide, each once.
fn colliding_names(users: &Vec<Credential>, unames: &[&str]) -> (r: Vec<String>)
    ensures
        crate::text::texts_view(r@) == colliding(users@, strs_view(unames@)),
{
    let ghost all = strs_view(unames@);
    let n = unames.len();
    let mut names: Vec<String> = Vec::new();
    let mut i: usize = 0;
    assert(all.take(0) =~= Seq::<Seq<char>>::empty());
    assert(crate::text::texts_view(names@) =~= Seq::<Seq<char>>::empty());
    while i < n
        invariant
            i <= n == unames@.len() == all.len(),
            all == strs_view(unames@),
            crate::text::texts_view(names@) == colliding(users@, all.take(i as int)),
        decreases n - i,
    {
        proof {
            assert(all.take(i + 1).drop_last() =~= all.take(i as int));
            assert(all.take(i + 1).last() == unames@[i as int]@);
        }
        let taken = find_credential(users, unames[i]).is_some();
        let mut twice = false;
        let mut j: usize = 0;
        assert(all.take(i as int).take(0) =~= Seq::<Seq<char>>::empty());
        while j < i
            invariant
                j <= i < n == unames@.len() == all.len(),
                all == strs_view(unames@),
                twice == all.take(j as int).contains(unames@[i as int]@),
            decreases i - j,
        {
            proof {
                let name = unames@[i as int]@;
                assert(all.take(j + 1) =~= all.take(j as int).push(all[j as int]));
                let short = all.take(j as int);
                let long = all.take(j + 1);
                if short.contains(name) {
                    let k = choose|k: int| 0 <= k < short.len() && #[trigger] short[k] == name;
                    assert(long[k] == name);
                }
                if long.contains(name) && !short.contains(name) {
                    let k = choose|k: int| 0 <= k < long.len() && #[trigger] long[k] == name;
                    if k < j {
                        assert(short[k] == name);
                    }
                }
            }
            if unames[j].eq(unames[i]) {
                assert(all.take(j + 1)[j as int] == unames@[i as int]@);
                twice = true;
            }
            j += 1;
        }
        if taken || twice {
            list_once(&mut names, unames[i]);
        }
        i += 1;
    }
    assert(all.take(n as int) =~= all);
    names
}

/// The place of the entry of the user named `uname`.
pub fn find_credential(users: &Vec<Credential>, uname: &str) -> (r: Option<usize>)
    ensures
        match r {
            Some(i) => credential_index(users@, uname@) == Some(i as int) && i < users@.len()
                && users@[i as int].uname@ == uname@,
            None => credential_index(users@, uname@) is None,
        },
{
    let ghost p = entry_of(uname@);
    let n = users.len();
    let mut i: usize = 0;
    while i < n
        invariant
            i <= n == users@.len(),
            p == entry_of(uname@),
            forall|k: int| 0 <= k < i ==> !p(#[trigger] users@[k]),
        decreases n - i,
    {
        if users[i].uname.as_str().eq(uname) {
            proof {
                lemma_first_where_is(users@, p, i as int);
            }
            return Some(i);
        }
        i += 1;
    }
    proof {
        lemma_first_where_none(users@, p);
    }
    None
}

/// The place of the key `key` of the user named `uname`.
pub fn find_key(keys: &Vec<KeyRow>, uname: &str, key: &str) -> (r: Option<usize>)
    ensures
        match r {
            Some(i) => key_index(keys@, uname@, key@) == Some(i as int) && i < keys@.len()
                && keys@[i as int].uname@ == uname@ && keys@[i as int].key@ == key@,
            None => key_index(keys@, uname@, key@) is None,
        },
{
    let ghost p = row_of(uname@, key@);
    let n = keys.len();
    let mut i: usize = 0;
    while i < n
        invariant
            i <= n == keys@.len(),
            p == row_of(uname@, key@),
            forall|k: int| 0 <= k < i ==> !p(#[trigger] keys@[k]),
        decreases n - i,
    {
        if keys[i].uname.as_str().eq(uname) && keys[i].key.as_str().eq(key) {
            proof {
                lemma_first_where_is(keys@, p, i as int);
            }
            return Some(i);
        }
        i += 1;
    }
    proof {
        lemma_first_where_none(keys@, p);
    }
    None
}

impl Db {
    /// Keys can be made, no user has two entries or one key twice, and every
    /// key belongs to a user with an entry.
    pub open spec fn wf(&self) -> bool {
        &&& self.key_chars@.len() > 0
        &&& distinct_credentials(self.users@)
        &&& distinct_keys(self.keys@)
        &&& keys_have_users(self.keys@, self.users@)
    }

    /// The settings are those of `other`.
    pub open spec fn same_settings(&self, other: &Db) -> bool {
        &&& self.connection_string == other.connection_string
        &&& self.key_chars == other.key_chars
        &&& self.key_length == other.key_length
        &&& self.key_life == other.key_life
    }

    /// Whether the store is in good order.
    pub fn is_wf(&self) -> (r: bool)
        ensures
            r == self.wf(),
    {
        if self.key_chars.len() == 0 {
            return false;
        }
        let n = self.users.len();
        let mut i: usize = 0;
        while i < n
            invariant
                i <= n == self.users@.len(),
                forall|a: int, b: int|
                    0 <= a < b < i ==> (#[trigger] self.users@[a]).uname@ != (
                    #[trigger] self.users@[b]).uname@,
            decreases n - i,
        {
            let mut j: usize = 0;
            while j < i
                invariant
                    j <= i < n == self.users@.len(),
                    forall|a: int|
                        0 <= a < j ==> (#[trigger] self.users@[a]).uname@
                            != self.users@[i as int].uname@,
                decreases i - j,
            {
                if self.users[j].uname.as_str().eq(self.users[i].uname.as_str()) {
                    return false;
                }
                j += 1;
            }
            i += 1;
        }
        let m = self.keys.len();
        let mut k: usize = 0;
        while k < m
            invariant
                k <= m == self.keys@.len(),
                distinct_credentials(self.users@),
                forall|a: int, b: int|
                    0 <= a < b < k ==> !((#[trigger] self.keys@[a]).uname@ == (
                    #[trigger] self.keys@[b]).uname@ && self.keys@[a].key@ == self.keys@[b].key@),
                forall|a: int|
                    0 <= a < k ==> credential_index(self.users@, (#[trigger] self.keys@[a]).uname@)
                        is Some,
            decreases m - k,
        {
            if find_credential(&self.users, self.keys[k].uname.as_str()).is_none() {
                return false;
            }
            let mut j: usize = 0;
            while j < k
                invariant
                    j <= k < m == self.keys@.len(),
                    forall|a: int|
                        0 <= a < j ==> !((#[trigger] self.keys@[a]).uname@
                            == self.keys@[k as int].uname@ && self.keys@[a].key@
                            == self.keys@[k as int].key@),
                decreases k - j,
            {
                if self.keys[j].uname.as_str().eq(self.keys[k].uname.as_str())
                    && self.keys[j].key.as_str().eq(self.keys[k].key.as_str()) {
                    return false;
                }
                j += 1;
            }
            k += 1;
        }
        true
    }

    /// An empty store with the default settings.
    pub fn new(connection_string: String) -> (r: Self)
        ensures
            r.wf(),
            r.connection_string == connection_string,
            r.key_chars@ == default_key_alphabet(),
            r.key_length == DEFAULT_KEY_LENGTH,
            r.key_life == DEFAULT_KEY_LIFE_SECONDS,
            r.users@.len() == 0,
            r.keys@.len() == 0,
    {
        let key_chars = chars_of(default_key_chars());
        Db {
            connection_string,
            key_chars,
            key_length: DEFAULT_KEY_LENGTH,
            key_life: DEFAULT_KEY_LIFE_SECONDS,
            users: Vec::new(),
            keys: Vec::new(),
        }
    }

    /// Empties the store; the settings stay.
    pub fn nuke_database(&mut self)
        ensures
            final(self).same_settings(old(self)),
            final(self).users@.len() == 0,
            final(self).keys@.len() == 0,
            old(self).wf() ==> final(self).wf(),
    {
        self.users = Vec::new();
        self.keys = Vec::new();
    }

    /// Sets the characters of which keys are made. Does nothing if
    /// `new_chars` is empty.
    pub fn set_key_chars(&mut self, new_chars: &str)
        requires
            old(self).wf(),
        ensures
            final(self).wf(),
            final(self).key_chars@ == if new_chars@.len() > 0 {
                new_chars@
            } else {
                old(self).key_chars@
            },
            final(self).connection_string == old(self).connection_string,
            final(self).key_length == old(self).key_length,
            final(self).key_life == old(self).key_life,
            final(self).users == old(self).users,
            final(self).keys == old(self).keys,
    {
        let chars = chars_of(new_chars);
        if chars.len() > 0 {
            self.key_chars = chars;
        }
    }

    pub fn set_key_length(&mut self, new_length: usize)
        ensures
            final(self).key_length == new_length,
            final(self).connection_string == old(self).connection_string,
            final(self).key_chars == old(self).key_chars,
            final(self).key_life == old(self).key_life,
            final(self).users == old(self).users,
            final(self).keys == old(self).keys,
    {
        self.key_length = new_length;
    }

    pub fn set_key_life(&mut self, seconds: u64)
        ensures
            final(self).key_life == seconds,
            final(self).connection_string == old(self).connection_string,
            final(self).key_chars == old(self).key_chars,
            final(self).key_length == old(self).key_length,
            final(self).users == old(self).users,
            final(self).keys == old(self).keys,
    {
        self.key_life = seconds;
    }

    /// A new key: `key_length` characters, each one of `key_chars`, chosen at random.
    pub fn generate_key(&self) -> (r: String)
        requires
            self.wf(),
        ensures
            r@.len() == self.key_length,
            drawn_from(r@, self.key_chars@),
    {
        sample_chars(&self.key_chars, self.key_length)
    }

    /// Adds an entry for each user of the batch, or none at all: the batch is
    /// refused where the three lists differ in length, where a name has an
    /// entry already, and where a name occurs twice in the batch.
    pub fn add_users(&mut self, unames: &[&str], passwords: &[&str], salts: &[&str]) -> (r: Result<
        u64,
        DbError,
    >)
        requires
            old(self).wf(),
        ensures
            final(self).wf(),
            final(self).same_settings(old(self)),
            final(self).keys == old(self).keys,
            match r {
                Ok(n) => {
                    &&& add_users_refusal(old(self).users@, unames@, passwords@, salts@) is None
                    &&& n == unames@.len()
                    &&& with_batch(
                        old(self).users@,
                        final(self).users@,
                        unames@,
                        passwords@,
                        salts@,
                        unames@.len() as int,
                    )
                },
                Err(e) => {
                    &&& add_users_refusal(old(self).users@, unames@, passwords@, salts@) == Some(
                        e.0@,
                    )
                    &&& final(self).users == old(self).users
                },
            },
    {
        if unames.len() != passwords.len() {
            return Err(DbError(counts_differ("unames", unames.len(), "passwords", passwords.len())));
        }
        if passwords.len() != salts.len() {
            return Err(DbError(counts_differ("passwords", passwords.len(), "salts", salts.len())));
        }
        match first_collision(&self.users, unames) {
            Some(_) => {
                let mut msg = String::from_str("Database already contains unames:\n");
                let names = colliding_names(&self.users, unames);
                append_lines(&mut msg, &names);
                return Err(DbError(msg));
            },
            None => {},
        }
        let n = unames.len();
        let ghost before = self.users@;
        let mut i: usize = 0;
        assert(self.users@.take(before.len() as int) =~= before);
        while i < n
            invariant
                i <= n == unames@.len() == passwords@.len() == salts@.len(),
                !batch_collides(before, unames@),
                distinct_credentials(before),
                with_batch(before, self.users@, unames@, passwords@, salts@, i as int),
                distinct_credentials(self.users@),
                self.keys == old(self).keys,
                self.same_settings(old(self)),
                self.key_chars@.len() > 0,
            decreases n - i,
        {
            let hash = hash_with_salt(passwords[i], salts[i].as_bytes());
            let ghost prior = self.users@;
            self.users.push(Credential { uname: String::from_str(unames[i]), hash });
            proof {
                let now = self.users@;
                assert(now.take(before.len() as int) =~= prior.take(before.len() as int));
                assert forall|a: int, b: int| 0 <= a < b < now.len() implies (#[trigger] now[a]).uname@
                    != (#[trigger] now[b]).uname@ by {
                    if b == now.len() - 1 {
                        if a < before.len() {
                            assert(now[a] == before[a]) by {
                                assert(prior.take(before.len() as int)[a] == prior[a]);
                            }
                            lemma_credential_index(before, unames@[i as int]@);
                            assert(credential_index(before, unames@[i as int]@) is None);
                        } else {
                            let k = a - before.len();
                            assert(prior[before.len() + k].uname@ == unames@[k]@);
                            assert(unames@[k]@ != unames@[i as int]@);
                        }
                    } else {
                        assert(now[a] == prior[a] && now[b] == prior[b]);
                    }
                }
                assert forall|k: int| 0 <= k < i + 1 implies (#[trigger] now[before.len() + k]).uname@
                    == unames@[k]@ && now[before.len() + k].hash@ == salted_hash(
                    passwords@[k].spec_bytes(),
                    salts@[k].spec_bytes(),
                ) by {
                    if k < i {
                        assert(now[before.len() + k] == prior[before.len() + k]);
                    }
                }
            }
            i += 1;
        }
        proof {
            lemma_keys_keep_users(self.keys@, before, self.users@);
        }
        Ok(n as u64)
    }

    /// Adds an entry for one user; refused where the name has one already.
    pub fn add_user(&mut self, uname: &str, password: &str, salt: &str) -> (r: Result<(), DbError>)
        requires
            old(self).wf(),
        ensures
            final(self).wf(),
            final(self).same_settings(old(self)),
            final(self).keys == old(self).keys,
            match r {
                Ok(()) => {
                    &&& credential_index(old(self).users@, uname@) is None
                    &&& final(self).users@.len() == old(self).users@.len() + 1
                    &&& final(self).users@.take(old(self).users@.len() as int) == old(self).users@
                    &&& final(self).users@.last().uname@ == uname@
                    &&& final(self).users@.last().hash@ == salted_hash(
                        password.spec_bytes(),
                        salt.spec_bytes(),
                    )
                },
                Err(e) => credential_index(old(self).users@, uname@) is Some && final(self).users
                    == old(self).users && e.0@ == "Database already contains unames:\n"@ + uname@
                    + "\n"@,
            },
    {
        let unames = [uname];
        let passwords = [password];
        let salts = [salt];
        proof {
            if batch_collides(self.users@, unames@) {
                assert(credential_index(self.users@, uname@) is Some);
            }
            if credential_index(self.users@, uname@) is Some {
                assert(unames@[0]@ == uname@);
                assert(batch_collides(self.users@, unames@));
                assert(strs_view(unames@) =~= seq![uname@]);
                assert(seq![uname@].drop_last() =~= Seq::<Seq<char>>::empty());
                assert(colliding(self.users@, seq![uname@].drop_last()) =~= Seq::<Seq<char>>::empty());
                assert(colliding(self.users@, seq![uname@]) =~= seq![uname@]);
                assert(seq![uname@].drop_last() =~= Seq::<Seq<char>>::empty());
                assert(lines(seq![uname@]) =~= uname@ + "\n"@) by {
                    assert(lines(seq![uname@].drop_last()) =~= Seq::<char>::empty());
                }
            }
        }
        match self.add_users(unames.as_slice(), passwords.as_slice(), salts.as_slice()) {
            Err(e) => Err(e),
            Ok(_) => {
                assert(self.users@.last() == self.users@[old(self).users@.len() as int + 0]);
                Ok(())
            },
        }
    }

    /// Takes the named users out: their keys first, then their entries. Says
    /// how many entries went.
    pub fn delete_users(&mut self, unames: &[&str]) -> (r: Result<u64, DbError>)
        requires
            old(self).wf(),
        ensures
            final(self).wf(),
            final(self).same_settings(old(self)),
            final(self).keys@ == keys_without(old(self).keys@, unames@),
            final(self).users@ == entries_without(old(self).users@, unames@),
            r matches Ok(n) && n == old(self).users@.len() - final(self).users@.len(),
    {
        let ghost keep_key = key_of_other(unames@);
        let ghost keep_user = entry_of_other(unames@);
        let ghost old_keys = self.keys@;
        let ghost old_users = self.users@;
        let mut keys: Vec<KeyRow> = Vec::new();
        let mut i: usize = 0;
        assert(old_keys.take(0).filter(keep_key) =~= Seq::<KeyRow>::empty()) by {
            reveal(Seq::filter);
        }
        while i < self.keys.len()
            invariant
                i <= self.keys@.len(),
                self.keys@ == old_keys,
                keep_key == key_of_other(unames@),
                keys@ == old_keys.take(i as int).filter(keep_key),
            decreases self.keys@.len() - i,
        {
            proof {
                assert(old_keys.take(i + 1) =~= old_keys.take(i as int).push(old_keys[i as int]));
                old_keys.take(i as int).lemma_filter_push(old_keys[i as int], keep_key);
            }
            if !is_named_in(unames, self.keys[i].uname.as_str()) {
                keys.push(self.keys[i].clone());
            }
            i += 1;
        }
        assert(old_keys.take(old_keys.len() as int) =~= old_keys);
        let mut users: Vec<Credential> = Vec::new();
        let mut j: usize = 0;
        assert(old_users.take(0).filter(keep_user) =~= Seq::<Credential>::empty()) by {
            reveal(Seq::filter);
        }
        while j < self.users.len()
            invariant
                j <= self.users@.len(),
                self.users@ == old_users,
                keep_user == entry_of_other(unames@),
                users@ == old_users.take(j as int).filter(keep_user),
            decreases self.users@.len() - j,
        {
            proof {
                assert(old_users.take(j + 1) =~= old_users.take(j as int).push(old_users[j as int]));
                old_users.take(j as int).lemma_filter_push(old_users[j as int], keep_user);
            }
            if !is_named_in(unames, self.users[j].uname.as_str()) {
                users.push(self.users[j].clone());
            }
            j += 1;
        }
        assert(old_users.take(old_users.len() as int) =~= old_users);
        proof {
            lemma_filtered_credentials(old_users, keep_user);
            lemma_filtered_keys(old_keys, keep_key);
            old_users.lemma_filter_len(keep_user);
            // Every key that stays belongs to a user who stays.
            assert forall|a: int| 0 <= a < keys@.len() implies credential_index(
                users@,
                (#[trigger] keys@[a]).uname@,
            ) is Some by {
                let name = keys@[a].uname@;
                old_keys.lemma_filter_pred(keep_key, a);
                assert(keys@.contains(keys@[a]));
                old_keys.lemma_filter_contains_rev(keep_key, keys@[a]);
                let b = choose|b: int| 0 <= b < old_keys.len() && old_keys[b] == keys@[a];
                assert(credential_index(old_users, old_keys[b].uname@) is Some);
                lemma_credential_index(old_users, name);
                let c = credential_index(old_users, name).unwrap();
                assert(!named_in(unames@, name));
                assert(keep_user(old_users[c]));
                old_users.lemma_filter_contains(keep_user, c);
                let d = choose|d: int| 0 <= d < users@.len() && users@[d] == old_users[c];
                lemma_credential_index(users@, name);
            }
        }
        let n = self.users.len() - users.len();
        self.keys = keys;
        self.users = users;
        Ok(n as u64)
    }

    /// Checks a password against the entry of the user, with the salt handed in.
    pub fn check_password(&self, uname: &str, password: &str, salt: &str) -> (r: Result<
        AuthResult,
        DbError,
    >)
        ensures
            r == Ok::<AuthResult, DbError>(
                password_verdict(self.users@, uname@, password.spec_bytes(), salt.spec_bytes()),
            ),
    {
        let current_hash = hash_with_salt(password, salt.as_bytes());
        match find_credential(&self.users, uname) {
            None => Ok(AuthResult::NoSuchUser),
            Some(i) => {
                if constant_time_eq(self.users[i].hash.as_str(), current_hash.as_str()) {
                    Ok(AuthResult::Okay)
                } else {
                    Ok(AuthResult::BadPassword)
                }
            },
        }
    }

    /// Gives a user another password: the hash on record becomes that of the
    /// new password with the salt handed in. Refused where the user has no entry.
    pub fn set_password(&mut self, uname: &str, new_password: &str, salt: &str) -> (r: Result<
        (),
        DbError,
    >)
        requires
            old(self).wf(),
        ensures
            final(self).wf(),
            final(self).same_settings(old(self)),
            final(self).keys == old(self).keys,
            match r {
                Ok(()) => {
                    &&& credential_index(old(self).users@, uname@) matches Some(i)
                    &&& final(self).users@.len() == old(self).users@.len()
                    &&& forall|k: int|
                        0 <= k < old(self).users@.len() && k != credential_index(
                            old(self).users@,
                            uname@,
                        )->0 ==> (#[trigger] final(self).users@[k]) == old(self).users@[k]
                    &&& final(self).users@[credential_index(old(self).users@, uname@)->0].uname
                        == old(self).users@[credential_index(old(self).users@, uname@)->0].uname
                    &&& final(self).users@[credential_index(old(self).users@, uname@)->0].hash@
                        == salted_hash(new_password.spec_bytes(), salt.spec_bytes())
                    &&& password_verdict(
                        final(self).users@,
                        uname@,
                        new_password.spec_bytes(),
                        salt.spec_bytes(),
                    ) == AuthResult::Okay
                },
                Err(e) => credential_index(old(self).users@, uname@) is None && final(self).users
                    == old(self).users && e.0@ == no_such_user(uname@),
            },
    {
        let i = match find_credential(&self.users, uname) {
            Some(i) => i,
            None => {
                let mut msg = String::from_str("There is no user with uname ");
                msg.append(uname);
                msg.append(".");
                return Err(DbError(msg));
            },
        };
        let ghost before = self.users@;
        let hash = hash_with_salt(new_password, salt.as_bytes());
        self.users[i].hash = hash;
        proof {
            let after = self.users@;
            assert forall|a: int, b: int| 0 <= a < b < after.len() implies (#[trigger] after[a]).uname@
                != (#[trigger] after[b]).uname@ by {
                assert(after[a].uname == before[a].uname && after[b].uname == before[b].uname);
            }
            assert forall|name: Seq<char>| #[trigger]
                credential_index(after, name) == credential_index(before, name) by {
                lemma_credential_index(before, name);
                lemma_credential_index(after, name);
                match credential_index(before, name) {
                    Some(k) => {
                        assert(after[k].uname == before[k].uname);
                        match credential_index(after, name) {
                            Some(j) => {
                                assert(after[j].uname == before[j].uname);
                            },
                            None => {},
                        }
                    },
                    None => {
                        match credential_index(after, name) {
                            Some(j) => {
                                assert(after[j].uname == before[j].uname);
                            },
                            None => {},
                        }
                    },
                }
            }
            assert forall|k: int| 0 <= k < self.keys@.len() implies credential_index(
                after,
                (#[trigger] self.keys@[k]).uname@,
            ) is Some by {
                assert(credential_index(before, self.keys@[k].uname@) is Some);
            }
        }
        Ok(())
    }

    /// Records that `key` was issued to `uname` at `now`. Should the user
    /// hold this very key already, that row is marked as used now. Refused
    /// where the user has no entry.
    pub fn issue_key(&mut self, uname: &str, key: String, now: u64) -> (r: Result<(), DbError>)
        requires
            old(self).wf(),
        ensures
            final(self).wf(),
            final(self).same_settings(old(self)),
            final(self).users == old(self).users,
            match r {
                Ok(()) => credential_index(old(self).users@, uname@) is Some && keys_issued(
                    old(self).keys@,
                    final(self).keys@,
                    uname@,
                    key@,
                    now,
                ),
                Err(e) => credential_index(old(self).users@, uname@) is None && final(self).keys
                    == old(self).keys && e.0@ == no_such_user(uname@),
            },
    {
        if find_credential(&self.users, uname).is_none() {
            let mut msg = String::from_str("There is no user with uname ");
            msg.append(uname);
            msg.append(".");
            return Err(DbError(msg));
        }
        let ghost before = self.keys@;
        match find_key(&self.keys, uname, key.as_str()) {
            Some(i) => {
                self.keys[i].last_used = now;
                assert(self.keys@ =~= before.update(
                    i as int,
                    KeyRow { key: before[i as int].key, uname: before[i as int].uname, last_used: now },
                ));
                proof {
                    lemma_used_keys_wf(before, self.users@, i as int, now);
                }
            },
            None => {
                self.keys.push(KeyRow { key, uname: String::from_str(uname), last_used: now });
                proof {
                    let now_keys = self.keys@;
                    assert(now_keys.take(before.len() as int) =~= before);
                    lemma_key_index(before, uname@, key@);
                    assert forall|a: int, b: int| 0 <= a < b < now_keys.len() implies !((
                    #[trigger] now_keys[a]).uname@ == (#[trigger] now_keys[b]).uname@ && now_keys[a].key@
                        == now_keys[b].key@) by {
                        if b < before.len() {
                            assert(now_keys[a] == before[a] && now_keys[b] == before[b]);
                        } else {
                            assert(now_keys[a] == before[a]);
                        }
                    }
                    assert forall|a: int| 0 <= a < now_keys.len() implies credential_index(
                        self.users@,
                        (#[trigger] now_keys[a]).uname@,
                    ) is Some by {
                        if a < before.len() {
                            assert(now_keys[a] == before[a]);
                        }
                    }
                }
            },
        }
        Ok(())
    }

    /// Checks a password and, where it is the right one, issues a new key
    /// and records it as used at `now`.
    pub fn check_password_and_issue_key(
        &mut self,
        uname: &str,
        password: &str,
        salt: &str,
        now: u64,
    ) -> (r: Result<AuthResult, DbError>)
        requires
            old(self).wf(),
        ensures
            final(self).wf(),
            final(self).same_settings(old(self)),
            final(self).users == old(self).users,
            match password_verdict(
                old(self).users@,
                uname@,
                password.spec_bytes(),
                salt.spec_bytes(),
            ) {
                AuthResult::Okay => {
                    &&& r matches Ok(AuthResult::Key(k))
                    &&& r->Ok_0->Key_0@.len() == old(self).key_length
                    &&& drawn_from(r->Ok_0->Key_0@, old(self).key_chars@)
                    &&& keys_issued(old(self).keys@, final(self).keys@, uname@, r->Ok_0->Key_0@, now)
                    &&& key_index(final(self).keys@, uname@, r->Ok_0->Key_0@) matches Some(i)
                    &&& final(self).keys@[key_index(
                        final(self).keys@,
                        uname@,
                        r->Ok_0->Key_0@,
                    )->0].last_used == now
                    &&& key_is_good(
                        final(self).keys@,
                        uname@,
                        r->Ok_0->Key_0@,
                        old(self).key_life,
                        now,
                    ) == (old(self).key_life > 0)
                },
                verdict => r == Ok::<AuthResult, DbError>(verdict) && final(self).keys == old(self).keys,
            },
    {
        match self.check_password(uname, password, salt) {
            Ok(AuthResult::Okay) => {},
            other => {
                return other;
            },
        }
        let key = self.generate_key();
        let issued = key.clone();
        let ghost before = self.keys@;
        match self.issue_key(uname, key, now) {
            Ok(()) => {},
            Err(e) => {
                return Err(e);
            },
        }
        proof {
            lemma_key_index(before, uname@, issued@);
            lemma_key_index(self.keys@, uname@, issued@);
            match key_index(before, uname@, issued@) {
                Some(i) => {
                    assert forall|k: int| 0 <= k < i implies !((#[trigger] self.keys@[k]).uname@
                        == uname@ && self.keys@[k].key@ == issued@) by {
                        assert(self.keys@[k] == before[k]);
                    }
                    assert(self.keys@[i].uname@ == uname@ && self.keys@[i].key@ == issued@);
                },
                None => {
                    let last = self.keys@.len() - 1;
                    assert forall|k: int| 0 <= k < last implies !((#[trigger] self.keys@[k]).uname@
                        == uname@ && self.keys@[k].key@ == issued@) by {
                        assert(self.keys@[k] == self.keys@.take(before.len() as int)[k]);
                    }
                    assert(self.keys@[last] == self.keys@.last());
                },
            }
        }
        Ok(AuthResult::Key(issued))
    }

    /// Checks a key: it is good if it was issued to the user and is still
    /// live. A good key is marked as used now.
    pub fn check_key(&mut self, uname: &str, key: &str, now: u64) -> (r: Result<AuthResult, DbError>)
        requires
            old(self).wf(),
        ensures
            final(self).wf(),
            final(self).same_settings(old(self)),
            final(self).users == old(self).users,
            r == Ok::<AuthResult, DbError>(
                if key_is_good(old(self).keys@, uname@, key@, old(self).key_life, now) {
                    AuthResult::Okay
                } else {
                    AuthResult::InvalidKey
                },
            ),
            final(self).keys@ == keys_after_use(
                old(self).keys@,
                uname@,
                key@,
                old(self).key_life,
                now,
            ),
    {
        let ghost before = self.keys@;
        match find_key(&self.keys, uname, key) {
            None => Ok(AuthResult::InvalidKey),
            Some(i) => {
                let last_used = self.keys[i].last_used;
                let live = match last_used.checked_add(self.key_life) {
                    Some(end) => end > now,
                    None => true,
                };
                if live {
                    self.keys[i].last_used = now;
                    assert(self.keys@ =~= before.update(
                        i as int,
                        KeyRow {
                            key: before[i as int].key,
                            uname: before[i as int].uname,
                            last_used: now,
                        },
                    ));
                    proof {
                        lemma_used_keys_wf(before, self.users@, i as int, now);
                    }
                    Ok(AuthResult::Okay)
                } else {
                    Ok(AuthResult::InvalidKey)
                }
            },
        }
    }

    /// Deletes the keys whose life ran out before `now`. Says how many went.
    pub fn cull_old_keys(&mut self, now: u64) -> (r: Result<u64, DbError>)
        requires
            old(self).wf(),
        ensures
            final(self).wf(),
            final(self).same_settings(old(self)),
            final(self).users == old(self).users,
            final(self).keys@ == kept_keys(old(self).keys@, old(self).key_life, now),
            r matches Ok(n) && n == old(self).keys@.len() - final(self).keys@.len(),
    {
        let life = self.key_life;
        let ghost keep = key_kept(life, now);
        let ghost old_keys = self.keys@;
        let mut keys: Vec<KeyRow> = Vec::new();
        let mut i: usize = 0;
        assert(old_keys.take(0).filter(keep) =~= Seq::<KeyRow>::empty()) by {
            reveal(Seq::filter);
        }
        while i < self.keys.len()
            invariant
                i <= self.keys@.len(),
                self.keys@ == old_keys,
                keep == key_kept(life, now),
                keys@ == old_keys.take(i as int).filter(keep),
            decreases self.keys@.len() - i,
        {
            proof {
                assert(old_keys.take(i + 1) =~= old_keys.take(i as int).push(old_keys[i as int]));
                old_keys.take(i as int).lemma_filter_push(old_keys[i as int], keep);
            }
            let dead = match self.keys[i].last_used.checked_add(life) {
                Some(end) => end < now,
                None => false,
            };
            if !dead {
                keys.push(self.keys[i].clone());
            }
            i += 1;
        }
        assert(old_keys.take(old_keys.len() as int) =~= old_keys);
        proof {
            lemma_filtered_keys(old_keys, keep);
            old_keys.lemma_filter_len(keep);
            assert forall|a: int| 0 <= a < keys@.len() implies credential_index(
                self.users@,
                (#[trigger] keys@[a]).uname@,
            ) is Some by {
                assert(keys@.contains(keys@[a]));
                old_keys.lemma_filter_contains_rev(keep, keys@[a]);
                let b = choose|b: int| 0 <= b < old_keys.len() && old_keys[b] == keys@[a];
                assert(credential_index(self.users@, old_keys[b].uname@) is Some);
            }
        }
        let n = self.keys.len() - keys.len();
        self.keys = keys;
        Ok(n as u64)
    }
}

/// Whether `name` is one of `names`.
pub fn is_named_in(names: &[&str], name: &str) -> (r: bool)
    ensures
        r == named_in(names@, name@),
{
    let n = names.len();
    let mut i: usize = 0;
    while i < n
        invariant
            i <= n == names@.len(),
            forall|k: int| 0 <= k < i ==> (#[trigger] names@[k])@ != name@,
        decreases n - i,
    {
        if names[i].eq(name) {
            return true;
        }
        i += 1;
    }
    false
}

/// Entries that are kept from a list without doubles are without doubles.
pub proof fn lemma_filtered_credentials(users: Seq<Credential>, keep: spec_fn(Credential) -> bool)
    requires
        distinct_credentials(users),
    ensures
        distinct_credentials(users.filter(keep)),
    decreases users.len(),
{
    reveal(Seq::filter);
    if users.len() > 0 {
        let t = users.drop_last();
        assert forall|i: int, j: int| 0 <= i < j < t.len() implies (#[trigger] t[i]).uname@ != (
        #[trigger] t[j]).uname@ by {
            assert(t[i] == users[i] && t[j] == users[j]);
        }
        lemma_filtered_credentials(t, keep);
        let ft = t.filter(keep);
        let f = users.filter(keep);
        if keep(users.last()) {
            assert(f == ft.push(users.last()));
            assert forall|i: int, j: int| 0 <= i < j < f.len() implies (#[trigger] f[i]).uname@ != (
            #[trigger] f[j]).uname@ by {
                if j == f.len() - 1 {
                    assert(ft.contains(ft[i]));
                    t.lemma_filter_contains_rev(keep, ft[i]);
                    let m = choose|m: int| 0 <= m < t.len() && t[m] == ft[i];
                    assert(users[m] == t[m]);
                    assert(users[users.len() - 1] == users.last());
                } else {
                    assert(f[i] == ft[i] && f[j] == ft[j]);
                }
            }
        } else {
            assert(f == ft);
        }
    }
}

/// Keys that are kept from a list without doubles are without doubles.
pub proof fn lemma_filtered_keys(keys: Seq<KeyRow>, keep: spec_fn(KeyRow) -> bool)
    requires
        distinct_keys(keys),
    ensures
        distinct_keys(keys.filter(keep)),
    decreases keys.len(),
{
    reveal(Seq::filter);
    if keys.len() > 0 {
        let t = keys.drop_last();
        assert forall|i: int, j: int| 0 <= i < j < t.len() implies !((#[trigger] t[i]).uname@ == (
        #[trigger] t[j]).uname@ && t[i].key@ == t[j].key@) by {
            assert(t[i] == keys[i] && t[j] == keys[j]);
        }
        lemma_filtered_keys(t, keep);
        let ft = t.filter(keep);
        let f = keys.filter(keep);
        if keep(keys.last()) {
            assert(f == ft.push(keys.last()));
            assert forall|i: int, j: int| 0 <= i < j < f.len() implies !((#[trigger] f[i]).uname@ == (
            #[trigger] f[j]).uname@ && f[i].key@ == f[j].key@) by {
                if j == f.len() - 1 {
                    assert(ft.contains(ft[i]));
                    t.lemma_filter_contains_rev(keep, ft[i]);
                    let m = choose|m: int| 0 <= m < t.len() && t[m] == ft[i];
                    assert(keys[m] == t[m]);
                    assert(keys[keys.len() - 1] == keys.last());
                } else {
                    assert(f[i] == ft[i] && f[j] == ft[j]);
                }
            }
        } else {
            assert(f == ft);
        }
    }
}

/// Keys whose users have entries keep having them when entries are added.
pub proof fn lemma_keys_keep_users(keys: Seq<KeyRow>, before: Seq<Credential>, after: Seq<Credential>)
    requires
        keys_have_users(keys, before),
        before.len() <= after.len(),
        after.take(before.len() as int) == before,
    ensures
        keys_have_users(keys, after),
{
    assert forall|i: int| 0 <= i < keys.len() implies credential_index(
        after,
        (#[trigger] keys[i]).uname@,
    ) is Some by {
        let name = keys[i].uname@;
        lemma_credential_index(before, name);
        let k = credential_index(before, name).unwrap();
        assert(after.take(before.len() as int)[k] == after[k]);
        lemma_credential_index(after, name);
    }
}

/// Marking a key as used keeps the keys in good order.
pub proof fn lemma_used_keys_wf(keys: Seq<KeyRow>, users: Seq<Credential>, i: int, now: u64)
    requires
        0 <= i < keys.len(),
        distinct_keys(keys),
        keys_have_users(keys, users),
    ensures
        distinct_keys(
            keys.update(i, KeyRow { key: keys[i].key, uname: keys[i].uname, last_used: now }),
        ),
        keys_have_users(
            keys.update(i, KeyRow { key: keys[i].key, uname: keys[i].uname, last_used: now }),
            users,
        ),
{
    let after = keys.update(i, KeyRow { key: keys[i].key, uname: keys[i].uname, last_used: now });
    assert forall|a: int, b: int| 0 <= a < b < after.len() implies !((#[trigger] after[a]).uname@ == (
    #[trigger] after[b]).uname@ && after[a].key@ == after[b].key@) by {
        assert(after[a].uname == keys[a].uname && after[a].key == keys[a].key);
        assert(after[b].uname == keys[b].uname && after[b].key == keys[b].key);
    }
    assert forall|a: int| 0 <= a < after.len() implies credential_index(
        users,
        (#[trigger] after[a]).uname@,
    ) is Some by {
        assert(after[a].uname == keys[a].uname);
    }
}

/// A password that was set with a salt checks out with that salt, and with
/// another salt exactly where the two hashes agree: the store holds the hash
/// alone and takes the salt from the caller.
pub proof fn lemma_salt_decides(
    before: Seq<Credential>,
    after: Seq<Credential>,
    uname: Seq<char>,
    pwd: Seq<u8>,
    salt: Seq<u8>,
    other_salt: Seq<u8>,
)
    requires
        credential_index(before, uname) is None,
        after.len() == before.len() + 1,
        after.take(before.len() as int) == before,
        after.last().uname@ == uname,
        after.last().hash@ == salted_hash(pwd, salt),
    ensures
        password_verdict(after, uname, pwd, salt) == AuthResult::Okay,
        password_verdict(after, uname, pwd, other_salt) == AuthResult::Okay <==> salted_hash(
            pwd,
            other_salt,
        ) == salted_hash(pwd, salt),
        password_verdict(after, uname, pwd, other_salt) != AuthResult::NoSuchUser,
{
    lemma_credential_index(before, uname);
    lemma_credential_index(after, uname);
    let last = after.len() - 1;
    assert(after[last] == after.last());
    assert forall|k: int| 0 <= k < last implies (#[trigger] after[k]).uname@ != uname by {
        assert(after[k] == after.take(before.len() as int)[k]);
    }
}

/// A key whose life ran out before `now` is refused and nothing changes; a
/// key with life left is accepted and marked as used at `now`, which is no
/// earlier than its last use unless that lies ahead of `now`.
pub proof fn lemma_key_ttl(keys: Seq<KeyRow>, uname: Seq<char>, key: Seq<char>, life: u64, now: u64)
    requires
        key_index(keys, uname, key) is Some,
    ensures
        ({
            let i = key_index(keys, uname, key)->0;
            let after = keys_after_use(keys, uname, key, life, now);
            &&& keys[i].last_used + life < now ==> !key_is_good(keys, uname, key, life, now) && after
                == keys
            &&& keys[i].last_used + life > now ==> {
                &&& key_is_good(keys, uname, key, life, now)
                &&& after.len() == keys.len()
                &&& after[i].last_used == now
                &&& keys[i].last_used <= now ==> after[i].last_used >= keys[i].last_used
                &&& life > 0 ==> key_is_good(after, uname, key, life, now)
            }
        }),
{
    lemma_key_index(keys, uname, key);
    let i = key_index(keys, uname, key)->0;
    let after = keys_after_use(keys, uname, key, life, now);
    if keys[i].last_used + life > now {
        lemma_key_index(after, uname, key);
        assert(after[i].uname == keys[i].uname && after[i].key == keys[i].key);
        assert forall|k: int| 0 <= k < i implies !((#[trigger] after[k]).uname@ == uname && after[k].key@
            == key) by {
            assert(after[k] == keys[k]);
        }
    }
}

/// Culling takes nothing that `check_key` would accept: a key that is good
/// at `now` is kept, and is good afterwards.
pub proof fn lemma_cull_keeps_good_keys(
    keys: Seq<KeyRow>,
    uname: Seq<char>,
    key: Seq<char>,
    life: u64,
    now: u64,
)
    requires
        distinct_keys(keys),
        key_is_good(keys, uname, key, life, now),
    ensures
        key_is_good(kept_keys(keys, life, now), uname, key, life, now),
{
    let keep = key_kept(life, now);
    let kept = kept_keys(keys, life, now);
    lemma_key_index(keys, uname, key);
    lemma_key_index(kept, uname, key);
    let i = key_index(keys, uname, key)->0;
    keys.lemma_filter_contains(keep, i);
    let j = choose|j: int| 0 <= j < kept.len() && kept[j] == keys[i];
    match key_index(kept, uname, key) {
        Some(m) => {
            assert(kept.contains(kept[m]));
            keys.lemma_filter_contains_rev(keep, kept[m]);
            let a = choose|a: int| 0 <= a < keys.len() && keys[a] == kept[m];
            assert(a == i);
        },
        None => {
            assert(kept[j].uname@ == uname);
        },
    }
}

} // verus!
