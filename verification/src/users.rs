//! The accounts of the server: passwords, profiles, devices and access tokens.

use crate::bytes::{
    index_of, lemma_index_of_is, lemma_text_no_ff, spec_index_of, string_from_bytes,
};
use crate::error::{Error, ErrorKind, Result};
use crate::ident::{check_user_id, user_id_valid};
use crate::pdu::option_view;
use crate::state_compressor::Db;
use crate::state_set::{lemma_lists_set_unique, push_bytes, sorted_blobs};
use crate::tree::{vecs_of, Tree};
use vstd::prelude::*;
use vstd::slice::slice_subrange;
use vstd::utf8::{decode_utf8, encode_utf8, encode_utf8_decode_utf8, encode_utf8_valid_utf8, valid_utf8};

verus! {

/// The keyspaces of the accounts, as plain values.
pub struct UsersView {
    pub userid_password: Db,
    pub userid_displayname: Db,
    pub userid_avatarurl: Db,
    pub userdeviceids: Db,
    pub userdeviceid_token: Db,
    pub token_userdeviceid: Db,
}

/// The key of a device: the user id, the byte `0xff`, the device id.
pub open spec fn device_key(user_id: Seq<char>, device_id: Seq<char>) -> Seq<u8> {
    encode_utf8(user_id) + seq![0xffu8] + encode_utf8(device_id)
}

/// The text that bytes hold, where they are UTF-8.
pub open spec fn spec_text(bytes: Seq<u8>) -> Option<Seq<char>> {
    if valid_utf8(bytes) {
        Some(decode_utf8(bytes))
    } else {
        None
    }
}

/// The text stored under `key`: none where nothing is stored, an error where the stored bytes are not UTF-8.
pub open spec fn spec_stored_text(db: Db, key: Seq<u8>) -> std::result::Result<Option<Seq<char>>, ErrorKind> {
    if !db.dom().contains(key) {
        Ok(None)
    } else {
        match spec_text(db[key]) {
            Some(text) => Ok(Some(text)),
            None => Err(ErrorKind::BadDatabase),
        }
    }
}

/// The user id that text stands for, given whether it is one.
pub open spec fn spec_checked_user(text: Option<Seq<char>>, is_user: bool) -> std::result::Result<
    Seq<char>,
    ErrorKind,
> {
    match text {
        Some(user) => if is_user {
            Ok(user)
        } else {
            Err(ErrorKind::BadDatabase)
        },
        None => Err(ErrorKind::BadDatabase),
    }
}

/// The user id that stored bytes hold: an error where they are not UTF-8 or no user id.
pub open spec fn spec_user_from_bytes(bytes: Seq<u8>) -> std::result::Result<Seq<char>, ErrorKind> {
    spec_checked_user(spec_text(bytes), spec_text(bytes) matches Some(user) && user_id_valid(user))
}

/// The bytes of a token's value before the first `0xff`.
pub open spec fn owner_part(value: Seq<u8>) -> Seq<u8> {
    value.take(spec_index_of(value, 0xff))
}

/// The bytes of a token's value between the first `0xff` and the next, or the end.
pub open spec fn device_part(value: Seq<u8>) -> Seq<u8> {
    let rest = value.skip(spec_index_of(value, 0xff) + 1);
    rest.take(spec_index_of(rest, 0xff))
}

/// The user and the device that the value of a token names. The value is
/// the user id, the byte `0xff`, the device id; it is refused where it has
/// no `0xff`, where a part is not UTF-8, and where the first part is no user id.
pub open spec fn spec_token_owner(value: Seq<u8>) -> std::result::Result<(Seq<char>, Seq<char>), ErrorKind> {
    if spec_index_of(value, 0xff) >= value.len() {
        Err(ErrorKind::BadDatabase)
    } else {
        match (spec_user_from_bytes(owner_part(value)), spec_text(device_part(value))) {
            (Ok(user), Some(device)) => Ok((user, device)),
            _ => Err(ErrorKind::BadDatabase),
        }
    }
}

/// Who has the token `token`: none where the token is unknown.
pub open spec fn spec_find_from_token(v: UsersView, token: Seq<char>) -> std::result::Result<
    Option<(Seq<char>, Seq<char>)>,
    ErrorKind,
> {
    let key = encode_utf8(token);
    if !v.token_userdeviceid.dom().contains(key) {
        Ok(None)
    } else {
        match spec_token_owner(v.token_userdeviceid[key]) {
            Ok(owner) => Ok(Some(owner)),
            Err(k) => Err(k),
        }
    }
}

/// The accounts after a profile text was set, or removed where none is given.
pub open spec fn spec_set_text(db: Db, user_id: Seq<char>, text: Option<Seq<char>>) -> Db {
    match text {
        Some(t) => db.insert(encode_utf8(user_id), encode_utf8(t)),
        None => db.remove(encode_utf8(user_id)),
    }
}

/// Giving a device a token: refused where the user has no such device;
/// else the token that the device had is forgotten, and the device and the
/// new token are stored under each other.
pub open spec fn spec_set_token(v: UsersView, user_id: Seq<char>, device_id: Seq<char>, token: Seq<char>) -> (
    std::result::Result<(), ErrorKind>,
    UsersView,
) {
    let key = device_key(user_id, device_id);
    if !v.userdeviceids.dom().contains(key) {
        (Err(ErrorKind::BadRequest), v)
    } else {
        let tokens = if v.userdeviceid_token.dom().contains(key) {
            v.token_userdeviceid.remove(v.userdeviceid_token[key])
        } else {
            v.token_userdeviceid
        };
        (
            Ok(()),
            UsersView {
                userdeviceid_token: v.userdeviceid_token.insert(key, encode_utf8(token)),
                token_userdeviceid: tokens.insert(encode_utf8(token), key),
                ..v
            },
        )
    }
}

/// Adding a device to a user: refused where the user has no account; else
/// the device is stored and given the token.
pub open spec fn spec_create_device(v: UsersView, user_id: Seq<char>, device_id: Seq<char>, token: Seq<char>) -> (
    std::result::Result<(), ErrorKind>,
    UsersView,
) {
    if !v.userid_password.dom().contains(encode_utf8(user_id)) {
        (Err(ErrorKind::BadRequest), v)
    } else {
        spec_set_token(
            UsersView {
                userdeviceids: v.userdeviceids.insert(device_key(user_id, device_id), Seq::empty()),
                ..v
            },
            user_id,
            device_id,
            token,
        )
    }
}

/// The value stored for a token names the user and the device it was stored for.
pub proof fn lemma_token_owner(user_id: Seq<char>, device_id: Seq<char>)
    requires
        user_id_valid(user_id),
    ensures
        spec_token_owner(device_key(user_id, device_id)) == Ok::<(Seq<char>, Seq<char>), ErrorKind>(
            (user_id, device_id),
        ),
{
    let u = encode_utf8(user_id);
    let d = encode_utf8(device_id);
    let value = device_key(user_id, device_id);
    lemma_text_no_ff(user_id);
    lemma_text_no_ff(device_id);
    encode_utf8_valid_utf8(user_id);
    encode_utf8_valid_utf8(device_id);
    encode_utf8_decode_utf8(user_id);
    encode_utf8_decode_utf8(device_id);
    assert(value[u.len() as int] == 0xff);
    assert forall|j: int| 0 <= j < u.len() implies value[j] != 0xff by {
        assert(value[j] == u[j]);
    }
    lemma_index_of_is(value, 0xff, u.len() as int);
    assert(value.take(u.len() as int) =~= u);
    let rest = value.skip(u.len() as int + 1);
    assert(rest =~= d);
    lemma_index_of_is(rest, 0xff, d.len() as int);
    assert(rest.take(d.len() as int) =~= d);
}

/// After a device was added to a user with a token, the token finds the user and the device.
pub proof fn lemma_created_device_is_found(v: UsersView, user_id: Seq<char>, device_id: Seq<char>, token: Seq<char>)
    requires
        user_id_valid(user_id),
        spec_create_device(v, user_id, device_id, token).0 is Ok,
    ensures
        spec_find_from_token(spec_create_device(v, user_id, device_id, token).1, token) == Ok::<
            Option<(Seq<char>, Seq<char>)>,
            ErrorKind,
        >(Some((user_id, device_id))),
{
    lemma_token_owner(user_id, device_id);
}

/// The user id that `text` is, given whether `ruma` took it for one.
pub fn checked_user(text: Option<String>, is_user: bool) -> (r: Result<String>)
    ensures
        match r {
            Ok(user) => spec_checked_user(option_view(text), is_user) == Ok::<Seq<char>, ErrorKind>(user@),
            Err(e) => e is BadDatabase && spec_checked_user(option_view(text), is_user) is Err,
        },
{
    match text {
        Some(user) => if is_user {
            Ok(user)
        } else {
            Err(Error::BadDatabase("User ID in db is invalid."))
        },
        None => Err(Error::BadDatabase("User ID in db is invalid unicode.")),
    }
}

/// The user id that stored bytes hold.
pub fn user_from_bytes(bytes: &[u8]) -> (r: Result<String>)
    ensures
        match r {
            Ok(user) => spec_user_from_bytes(bytes@) == Ok::<Seq<char>, ErrorKind>(user@),
            Err(e) => e is BadDatabase && spec_user_from_bytes(bytes@) is Err,
        },
{
    let text = string_from_bytes(bytes);
    let is_user = match &text {
        Some(user) => check_user_id(user.as_str()),
        None => false,
    };
    checked_user(text, is_user)
}

/// The user and the device that the value of a token names.
pub fn token_owner(value: &[u8]) -> (r: Result<(String, String)>)
    ensures
        match r {
            Ok(owner) => spec_token_owner(value@) == Ok::<(Seq<char>, Seq<char>), ErrorKind>((owner.0@, owner.1@)),
            Err(e) => e is BadDatabase && spec_token_owner(value@) is Err,
        },
{
    let at = index_of(value, 0xff);
    if at >= value.len() {
        return Err(Error::BadDatabase("token_userdeviceid value invalid"));
    }
    let user_bytes = slice_subrange(value, 0, at);
    let rest = slice_subrange(value, at + 1, value.len());
    let end = index_of(rest, 0xff);
    let device_bytes = slice_subrange(rest, 0, end);
    assert(user_bytes@ =~= owner_part(value@));
    assert(rest@ =~= value@.skip(at + 1));
    assert(device_bytes@ =~= device_part(value@));
    let user = match user_from_bytes(user_bytes) {
        Ok(user) => user,
        Err(e) => {
            return Err(e);
        },
    };
    match string_from_bytes(device_bytes) {
        Some(device) => Ok((user, device)),
        None => Err(Error::BadDatabase("Device ID in token_userdeviceid is invalid unicode.")),
    }
}

/// The text stored under `key` in `tree`.
fn stored_text(tree: &Tree, key: &[u8]) -> (r: Result<Option<String>>)
    ensures
        match r {
            Ok(text) => spec_stored_text(tree@, key@) == Ok::<Option<Seq<char>>, ErrorKind>(option_view(text)),
            Err(e) => e is BadDatabase && spec_stored_text(tree@, key@) is Err,
        },
{
    match tree.get(key) {
        None => Ok(None),
        Some(bytes) => match string_from_bytes(bytes.as_slice()) {
            Some(text) => Ok(Some(text)),
            None => Err(Error::BadDatabase("Stored text is invalid unicode.")),
        },
    }
}

/// The accounts of the server.
pub struct Users {
    pub userid_password: Tree,
    pub userid_displayname: Tree,
    pub userid_avatarurl: Tree,
    pub userdeviceids: Tree,
    pub userdeviceid_token: Tree,
    pub token_userdeviceid: Tree,
}

impl View for Users {
    type V = UsersView;

    open spec fn view(&self) -> UsersView {
        UsersView {
            userid_password: self.userid_password@,
            userid_displayname: self.userid_displayname@,
            userid_avatarurl: self.userid_avatarurl@,
            userdeviceids: self.userdeviceids@,
            userdeviceid_token: self.userdeviceid_token@,
            token_userdeviceid: self.token_userdeviceid@,
        }
    }
}

impl Users {
    /// A server without accounts.
    pub fn new() -> (u: Users)
        ensures
            u@ == (UsersView {
                userid_password: Db::empty(),
                userid_displayname: Db::empty(),
                userid_avatarurl: Db::empty(),
                userdeviceids: Db::empty(),
                userdeviceid_token: Db::empty(),
                token_userdeviceid: Db::empty(),
            }),
    {
        Users {
            userid_password: Tree::new(),
            userid_displayname: Tree::new(),
            userid_avatarurl: Tree::new(),
            userdeviceids: Tree::new(),
            userdeviceid_token: Tree::new(),
            token_userdeviceid: Tree::new(),
        }
    }

    /// The key of a device of a user.
    pub fn device_key_of(user_id: &str, device_id: &str) -> (key: Vec<u8>)
        ensures
            key@ == device_key(user_id@, device_id@),
    {
        let mut key: Vec<u8> = Vec::new();
        push_bytes(&mut key, user_id.as_bytes());
        key.push(0xff);
        push_bytes(&mut key, device_id.as_bytes());
        assert(key@ =~= device_key(user_id@, device_id@));
        key
    }

    /// Check if a user has an account on this homeserver.
    pub fn user_exists(&self, user_id: &str) -> (r: bool)
        ensures
            r == self@.userid_password.dom().contains(encode_utf8(user_id@)),
    {
        self.userid_password.contains_key(user_id.as_bytes())
    }

    /// Create a new user account on this homeserver.
    pub fn create(&mut self, user_id: &str, hash: &str)
        ensures
            final(self)@ == (UsersView {
                userid_password: old(self)@.userid_password.insert(encode_utf8(user_id@), encode_utf8(hash@)),
                ..old(self)@
            }),
    {
        self.userid_password.insert(user_id.as_bytes(), hash.as_bytes());
    }

    /// Find out which user an access token belongs to.
    pub fn find_from_token(&self, token: &str) -> (r: Result<Option<(String, String)>>)
        ensures
            match r {
                Ok(Some(owner)) => spec_find_from_token(self@, token@) == Ok::<
                    Option<(Seq<char>, Seq<char>)>,
                    ErrorKind,
                >(Some((owner.0@, owner.1@))),
                Ok(None) => spec_find_from_token(self@, token@) == Ok::<Option<(Seq<char>, Seq<char>)>, ErrorKind>(
                    None,
                ),
                Err(e) => e is BadDatabase && spec_find_from_token(self@, token@) is Err,
            },
    {
        match self.token_userdeviceid.get(token.as_bytes()) {
            None => Ok(None),
            Some(bytes) => match token_owner(bytes.as_slice()) {
                Ok(owner) => Ok(Some(owner)),
                Err(e) => Err(e),
            },
        }
    }

    /// All users on this homeserver, in the byte order of their ids; an
    /// error in place of each stored id that is none.
    pub fn iter(&self) -> (r: Vec<Result<String>>)
        ensures
            r@.len() == sorted_blobs(self@.userid_password.dom()).len(),
            forall|i: int|
                0 <= i < r@.len() ==> match #[trigger] r@[i] {
                    Ok(user) => spec_user_from_bytes(sorted_blobs(self@.userid_password.dom())[i]) == Ok::<
                        Seq<char>,
                        ErrorKind,
                    >(user@),
                    Err(e) => e is BadDatabase && spec_user_from_bytes(
                        sorted_blobs(self@.userid_password.dom())[i],
                    ) is Err,
                },
    {
        let keys = self.userid_password.keys();
        let ghost all = vecs_of(keys@);
        proof {
            lemma_lists_set_unique(all, sorted_blobs(self@.userid_password.dom()), self@.userid_password.dom());
        }
        let mut out: Vec<Result<String>> = Vec::new();
        let mut i: usize = 0;
        while i < keys.len()
            invariant
                i <= keys@.len(),
                all == vecs_of(keys@),
                out@.len() == i,
                forall|j: int|
                    0 <= j < i ==> match #[trigger] out@[j] {
                        Ok(user) => spec_user_from_bytes(all[j]) == Ok::<Seq<char>, ErrorKind>(user@),
                        Err(e) => e is BadDatabase && spec_user_from_bytes(all[j]) is Err,
                    },
            decreases keys@.len() - i,
        {
            assert(all[i as int] == keys@[i as int]@);
            out.push(user_from_bytes(keys[i].as_slice()));
            i += 1;
        }
        out
    }

    /// Returns the password hash for the given user.
    pub fn password_hash(&self, user_id: &str) -> (r: Result<Option<String>>)
        ensures
            match r {
                Ok(text) => spec_stored_text(self@.userid_password, encode_utf8(user_id@)) == Ok::<
                    Option<Seq<char>>,
                    ErrorKind,
                >(option_view(text)),
                Err(e) => e is BadDatabase && spec_stored_text(self@.userid_password, encode_utf8(user_id@)) is Err,
            },
    {
        stored_text(&self.userid_password, user_id.as_bytes())
    }

    /// Returns the displayname of a user on this homeserver.
    pub fn displayname(&self, user_id: &str) -> (r: Result<Option<String>>)
        ensures
            match r {
                Ok(text) => spec_stored_text(self@.userid_displayname, encode_utf8(user_id@)) == Ok::<
                    Option<Seq<char>>,
                    ErrorKind,
                >(option_view(text)),
                Err(e) => e is BadDatabase && spec_stored_text(self@.userid_displayname, encode_utf8(user_id@))
                    is Err,
            },
    {
        stored_text(&self.userid_displayname, user_id.as_bytes())
    }

    /// Sets a new displayname or removes it if displayname is None.
    pub fn set_displayname(&mut self, user_id: &str, displayname: Option<String>)
        ensures
            final(self)@ == (UsersView {
                userid_displayname: spec_set_text(
                    old(self)@.userid_displayname,
                    user_id@,
                    option_view(displayname),
                ),
                ..old(self)@
            }),
    {
        match displayname {
            Some(displayname) => {
                self.userid_displayname.insert(user_id.as_bytes(), displayname.as_str().as_bytes());
            },
            None => {
                self.userid_displayname.remove(user_id.as_bytes());
            },
        }
    }

    /// Get the avatar_url of a user.
    pub fn avatar_url(&self, user_id: &str) -> (r: Result<Option<String>>)
        ensures
            match r {
                Ok(text) => spec_stored_text(self@.userid_avatarurl, encode_utf8(user_id@)) == Ok::<
                    Option<Seq<char>>,
                    ErrorKind,
                >(option_view(text)),
                Err(e) => e is BadDatabase && spec_stored_text(self@.userid_avatarurl, encode_utf8(user_id@)) is Err,
            },
    {
        stored_text(&self.userid_avatarurl, user_id.as_bytes())
    }

    /// Sets a new avatar_url or removes it if avatar_url is None.
    pub fn set_avatar_url(&mut self, user_id: &str, avatar_url: Option<String>)
        ensures
            final(self)@ == (UsersView {
                userid_avatarurl: spec_set_text(old(self)@.userid_avatarurl, user_id@, option_view(avatar_url)),
                ..old(self)@
            }),
    {
        match avatar_url {
            Some(avatar_url) => {
                self.userid_avatarurl.insert(user_id.as_bytes(), avatar_url.as_str().as_bytes());
            },
            None => {
                self.userid_avatarurl.remove(user_id.as_bytes());
            },
        }
    }

    /// Adds a new device to a user.
    pub fn create_device(&mut self, user_id: &str, device_id: &str, token: &str) -> (r: Result<()>)
        ensures
            final(self)@ == spec_create_device(old(self)@, user_id@, device_id@, token@).1,
            match r {
                Ok(_) => spec_create_device(old(self)@, user_id@, device_id@, token@).0 is Ok,
                Err(e) => spec_create_device(old(self)@, user_id@, device_id@, token@).0 == Err::<(), ErrorKind>(
                    e.kind(),
                ),
            },
    {
        if !self.user_exists(user_id) {
            return Err(Error::BadRequest("tried to create device for nonexistent user"));
        }
        let key = Self::device_key_of(user_id, device_id);
        let empty: [u8; 0] = [];
        self.userdeviceids.insert(key.as_slice(), empty.as_slice());
        assert(empty@ =~= Seq::<u8>::empty());
        self.set_token(user_id, device_id, token)
    }

    /// Replaces the access token of one device.
    pub fn set_token(&mut self, user_id: &str, device_id: &str, token: &str) -> (r: Result<()>)
        ensures
            final(self)@ == spec_set_token(old(self)@, user_id@, device_id@, token@).1,
            match r {
                Ok(_) => spec_set_token(old(self)@, user_id@, device_id@, token@).0 is Ok,
                Err(e) => spec_set_token(old(self)@, user_id@, device_id@, token@).0 == Err::<(), ErrorKind>(
                    e.kind(),
                ),
            },
    {
        let userdeviceid = Self::device_key_of(user_id, device_id);
        if !self.userdeviceids.contains_key(userdeviceid.as_slice()) {
            return Err(Error::BadRequest("Tried to set token for nonexistent device"));
        }
        // The old token no longer finds the device.
        if let Some(old_token) = self.userdeviceid_token.get(userdeviceid.as_slice()) {
            self.token_userdeviceid.remove(old_token.as_slice());
        }
        self.userdeviceid_token.insert(userdeviceid.as_slice(), token.as_bytes());
        self.token_userdeviceid.insert(token.as_bytes(), userdeviceid.as_slice());
        Ok(())
    }
}

} // verus!
