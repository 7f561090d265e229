//! Keys of the store and their byte layout.
//!
//! A key is written as a CBOR array of indefinite length whose first element
//! is a namespace string and whose other elements are the key's fields, so
//! that every key of a namespace (and of a namespace and leading fields)
//! shares a byte prefix and a range scan from that prefix finds them.
use vstd::prelude::*;
use vstd::seq_lib::lemma_flatten_concat;
use crate::cbor::{encode_text, item_text, read_text, text_item};
use crate::frame::{array_items, read_array_items, views};

verus! {

/// A key of the store.
#[allow(non_camel_case_types)]
#[derive(Debug, Clone, PartialEq, Eq)]
pub enum Key {
    /// Prefix of all requester keys.
    Requesters,
    /// A single requester.
    Requester { user_login: String },
    /// A connection of a user.
    Connection { user_id: String, id: String },
    /// Prefix of all connections of a user.
    ConnectionsByUserId { user_id: String },
    /// The key currently assigned to a user.
    UserIdToKey { user_id: String },
    /// The user a key belongs to.
    KeyToUserId { key: String },
    /// A user.
    User { user_id: String },
    /// The releases recorded for a repository of a requester.
    requesterReleases { user: String, repo: String },
    /// A key of a namespace this version does not know: the namespace and the
    /// encoded data items that follow it. Each of these is meant to be one
    /// CBOR data item, as decoding gives them; bytes that are not are written
    /// out as they are and do not decode again.
    Unsupported(String, Vec<Vec<u8>>),
}

/// The mathematical value of a [`Key`].
pub enum KeyView {
    Requesters,
    Requester { user_login: Seq<char> },
    Connection { user_id: Seq<char>, id: Seq<char> },
    ConnectionsByUserId { user_id: Seq<char> },
    UserIdToKey { user_id: Seq<char> },
    KeyToUserId { key: Seq<char> },
    User { user_id: Seq<char> },
    RequesterReleases { user: Seq<char>, repo: Seq<char> },
    Unsupported(Seq<char>, Seq<Seq<u8>>),
}

impl View for Key {
    type V = KeyView;

    open spec fn view(&self) -> KeyView {
        match self {
            Key::Requesters => KeyView::Requesters,
            Key::Requester { user_login } => KeyView::Requester { user_login: user_login@ },
            Key::Connection { user_id, id } => KeyView::Connection { user_id: user_id@, id: id@ },
            Key::ConnectionsByUserId { user_id } => KeyView::ConnectionsByUserId {
                user_id: user_id@,
            },
            Key::UserIdToKey { user_id } => KeyView::UserIdToKey { user_id: user_id@ },
            Key::KeyToUserId { key } => KeyView::KeyToUserId { key: key@ },
            Key::User { user_id } => KeyView::User { user_id: user_id@ },
            Key::requesterReleases { user, repo } => KeyView::RequesterReleases {
                user: user@,
                repo: repo@,
            },
            Key::Unsupported(ns, args) => KeyView::Unsupported(
                ns@,
                args@.map_values(|a: Vec<u8>| a@),
            ),
        }
    }
}

/// The data items of a key, in the order they are written: the namespace,
/// then the fields.
pub open spec fn key_elements(k: KeyView) -> Seq<Seq<u8>> {
    match k {
        KeyView::Requesters => seq![text_item("Requester"@)],
        KeyView::Requester { user_login } => seq![
            text_item("Requester"@),
            text_item(user_login),
        ],
        KeyView::Connection { user_id, id } => seq![
            text_item("connections"@),
            text_item(user_id),
            text_item(id),
        ],
        KeyView::ConnectionsByUserId { user_id } => seq![
            text_item("connections"@),
            text_item(user_id),
        ],
        KeyView::UserIdToKey { user_id } => seq![
            text_item("user-id-to-key"@),
            text_item(user_id),
        ],
        KeyView::KeyToUserId { key } => seq![text_item("key-to-user-id"@), text_item(key)],
        KeyView::User { user_id } => seq![text_item("user"@), text_item(user_id)],
        KeyView::RequesterReleases { user, repo } => seq![
            text_item("requester-releases"@),
            text_item(user),
            text_item(repo),
        ],
        KeyView::Unsupported(ns, args) => seq![text_item(ns)] + args,
    }
}

/// The bytes of a key: the head of an array of indefinite length, the data
/// items, and the "break" byte.
pub open spec fn key_bytes(k: KeyView) -> Seq<u8> {
    seq![0x9fu8] + key_elements(k).flatten() + seq![0xffu8]
}

/// Appends the encoding of `s` to `out`.
fn push_text(out: &mut Vec<u8>, s: &str)
    ensures
        final(out)@ == old(out)@ + text_item(s@),
{
    let mut item = encode_text(s);
    out.append(&mut item);
}

/// Appends every item of `items`, in order, to `out`.
fn push_items(out: &mut Vec<u8>, items: &Vec<Vec<u8>>)
    ensures
        final(out)@ == old(out)@ + views(items@).flatten(),
{
    let ghost all = views(items@);
    let ghost start = out@;
    let mut i: usize = 0;
    proof {
        assert(all.take(0) =~= Seq::<Seq<u8>>::empty());
        assert(out@ =~= start + all.take(0).flatten());
    }
    while i < items.len()
        invariant
            i <= items@.len(),
            all == views(items@),
            out@ == start + all.take(i as int).flatten(),
        decreases items@.len() - i,
    {
        let ghost before = all.take(i as int);
        out.extend_from_slice(items[i].as_slice());
        proof {
            assert(all.take(i + 1) =~= before.push(all[i as int]));
            before.lemma_flatten_push(all[i as int]);
            assert(out@ =~= start + all.take(i + 1).flatten());
        }
        i = i + 1;
    }
    proof {
        assert(all.take(items@.len() as int) =~= all);
    }
}

/// Flattening one, two or three byte strings concatenates them.
pub(crate) proof fn lemma_flatten_small(a: Seq<u8>, b: Seq<u8>, c: Seq<u8>)
    ensures
        seq![a].flatten() == a,
        seq![a, b].flatten() == a + b,
        seq![a, b, c].flatten() == a + b + c,
{
    reveal_with_fuel(Seq::<_>::flatten, 4);
    assert(seq![a].flatten() =~= a);
    assert(seq![a, b].drop_first() =~= seq![b]);
    assert(seq![a, b].flatten() =~= a + b);
    assert(seq![a, b, c].drop_first() =~= seq![b, c]);
    assert(seq![b, c].drop_first() =~= seq![c]);
    assert(seq![a, b, c].flatten() =~= a + b + c);
}

impl Key {
    /// Serialize the current key.
    pub fn serialize(&self) -> (out: Result<Vec<u8>, KeyError>)
        ensures
            out is Ok,
            out matches Ok(bytes) ==> bytes@ == key_bytes(self@),
    {
        let mut out: Vec<u8> = Vec::new();
        out.push(0x9f);
        let ghost start = out@;
        let ghost elems = key_elements(self@);
        match self {
            Key::Requesters => {
                push_text(&mut out, "Requester");
                proof { lemma_flatten_small(elems[0], elems[0], elems[0]); }
            },
            Key::Requester { user_login } => {
                push_text(&mut out, "Requester");
                push_text(&mut out, user_login.as_str());
                proof { lemma_flatten_small(elems[0], elems[1], elems[1]); }
            },
            Key::Connection { user_id, id } => {
                push_text(&mut out, "connections");
                push_text(&mut out, user_id.as_str());
                push_text(&mut out, id.as_str());
                proof { lemma_flatten_small(elems[0], elems[1], elems[2]); }
            },
            Key::ConnectionsByUserId { user_id } => {
                push_text(&mut out, "connections");
                push_text(&mut out, user_id.as_str());
                proof { lemma_flatten_small(elems[0], elems[1], elems[1]); }
            },
            Key::UserIdToKey { user_id } => {
                push_text(&mut out, "user-id-to-key");
                push_text(&mut out, user_id.as_str());
                proof { lemma_flatten_small(elems[0], elems[1], elems[1]); }
            },
            Key::KeyToUserId { key } => {
                push_text(&mut out, "key-to-user-id");
                push_text(&mut out, key.as_str());
                proof { lemma_flatten_small(elems[0], elems[1], elems[1]); }
            },
            Key::User { user_id } => {
                push_text(&mut out, "user");
                push_text(&mut out, user_id.as_str());
                proof { lemma_flatten_small(elems[0], elems[1], elems[1]); }
            },
            Key::requesterReleases { user, repo } => {
                push_text(&mut out, "requester-releases");
                push_text(&mut out, user.as_str());
                push_text(&mut out, repo.as_str());
                proof { lemma_flatten_small(elems[0], elems[1], elems[2]); }
            },
            Key::Unsupported(ns, args) => {
                push_text(&mut out, ns.as_str());
                push_items(&mut out, args);
                proof {
                    let first = seq![text_item(ns@)];
                    lemma_flatten_concat(first, args@.map_values(|a: Vec<u8>| a@));
                    lemma_flatten_small(text_item(ns@), text_item(ns@), text_item(ns@));
                }
            },
        }
        assert(out@ =~= start + elems.flatten());
        out.push(0xff);
        Ok(out)
    }
}

/// The one field of a namespace that takes one: its text, or why it is
/// missing or wrong.
pub open spec fn single_field(items: Seq<Seq<u8>>, field: Field) -> Result<Seq<char>, KeyError> {
    if items.len() < 2 {
        Err(KeyError::MissingField(field))
    } else {
        match item_text(items[1]) {
            None => Err(KeyError::NotText),
            Some(t) => if items.len() > 2 {
                Err(KeyError::TrailingElements)
            } else {
                Ok(t)
            },
        }
    }
}

/// The key that the elements of an array stand for: the first element names
/// the namespace, which decides how many string fields follow.
pub open spec fn key_from_items(items: Seq<Seq<u8>>) -> Result<KeyView, KeyError> {
    if items.len() == 0 {
        Err(KeyError::MissingNamespace)
    } else {
        match item_text(items[0]) {
            None => Err(KeyError::NotText),
            Some(ns) => if ns == "requester"@ {
                if items.len() == 1 {
                    Ok(KeyView::Requesters)
                } else {
                    match item_text(items[1]) {
                        None => Err(KeyError::NotText),
                        Some(user_login) => if items.len() > 2 {
                            Err(KeyError::TrailingElements)
                        } else {
                            Ok(KeyView::Requester { user_login })
                        },
                    }
                }
            } else if ns == "connections"@ {
                if items.len() < 2 {
                    Err(KeyError::MissingField(Field::Name))
                } else {
                    match item_text(items[1]) {
                        None => Err(KeyError::NotText),
                        Some(user_id) => if items.len() == 2 {
                            Ok(KeyView::ConnectionsByUserId { user_id })
                        } else {
                            match item_text(items[2]) {
                                None => Err(KeyError::NotText),
                                Some(id) => if items.len() > 3 {
                                    Err(KeyError::TrailingElements)
                                } else {
                                    Ok(KeyView::Connection { user_id, id })
                                },
                            }
                        },
                    }
                }
            } else if ns == "key-to-user-id"@ {
                match single_field(items, Field::Key) {
                    Ok(key) => Ok(KeyView::KeyToUserId { key }),
                    Err(e) => Err(e),
                }
            } else if ns == "user-id-to-key"@ {
                match single_field(items, Field::UserId) {
                    Ok(user_id) => Ok(KeyView::UserIdToKey { user_id }),
                    Err(e) => Err(e),
                }
            } else if ns == "user"@ {
                match single_field(items, Field::UserId) {
                    Ok(user_id) => Ok(KeyView::User { user_id }),
                    Err(e) => Err(e),
                }
            } else if ns == "requester-releases"@ {
                if items.len() < 2 {
                    Err(KeyError::MissingField(Field::User))
                } else {
                    match item_text(items[1]) {
                        None => Err(KeyError::NotText),
                        Some(user) => if items.len() < 3 {
                            Err(KeyError::MissingField(Field::Repo))
                        } else {
                            match item_text(items[2]) {
                                None => Err(KeyError::NotText),
                                Some(repo) => if items.len() > 3 {
                                    Err(KeyError::TrailingElements)
                                } else {
                                    Ok(KeyView::RequesterReleases { user, repo })
                                },
                            }
                        },
                    }
                }
            } else {
                Ok(KeyView::Unsupported(ns, items.drop_first()))
            },
        }
    }
}

/// The key that `b` encodes, or why it encodes none.
pub open spec fn key_from_bytes(b: Seq<u8>) -> Result<KeyView, KeyError> {
    match array_items(b) {
        Some(items) => key_from_items(items),
        None => Err(KeyError::Malformed),
    }
}

/// Whether `ns` is the namespace `name`.
fn is_namespace(ns: &String, name: &str) -> (b: bool)
    ensures
        b == (ns@ == name@),
{
    let owned = name.to_owned();
    ns.eq(&owned)
}

/// Reads element `i` of `items` as a string.
fn text_at(items: &Vec<Vec<u8>>, i: usize) -> (r: Result<String, KeyError>)
    requires
        i < items@.len(),
    ensures
        match r {
            Ok(t) => item_text(views(items@)[i as int]) == Some(t@),
            Err(e) => e == KeyError::NotText && item_text(views(items@)[i as int]) is None,
        },
{
    match read_text(items[i].as_slice()) {
        Some(t) => Ok(t),
        None => Err(KeyError::NotText),
    }
}

/// Reads the one field of a namespace that takes one, as [`single_field`].
fn read_single_field(items: &Vec<Vec<u8>>, field: Field) -> (r: Result<String, KeyError>)
    ensures
        match r {
            Ok(t) => single_field(views(items@), field) == Ok::<Seq<char>, KeyError>(t@),
            Err(e) => single_field(views(items@), field) == Err::<Seq<char>, KeyError>(e),
        },
{
    if items.len() < 2 {
        return Err(KeyError::MissingField(field));
    }
    let t = text_at(items, 1)?;
    if items.len() > 2 {
        return Err(KeyError::TrailingElements);
    }
    Ok(t)
}

impl Key {
    /// Builds the key that the elements of an array stand for, as
    /// [`key_from_items`].
    pub fn from_items(items: Vec<Vec<u8>>) -> (r: Result<Key, KeyError>)
        ensures
            match r {
                Ok(k) => key_from_items(views(items@)) == Ok::<KeyView, KeyError>(k@),
                Err(e) => key_from_items(views(items@)) == Err::<KeyView, KeyError>(e),
            },
    {
        let ghost v = views(items@);
        if items.len() == 0 {
            return Err(KeyError::MissingNamespace);
        }
        let ns = text_at(&items, 0)?;
        if is_namespace(&ns, "requester") {
            if items.len() == 1 {
                return Ok(Key::Requesters);
            }
            let user_login = text_at(&items, 1)?;
            if items.len() > 2 {
                return Err(KeyError::TrailingElements);
            }
            Ok(Key::Requester { user_login })
        } else if is_namespace(&ns, "connections") {
            if items.len() < 2 {
                return Err(KeyError::MissingField(Field::Name));
            }
            let user_id = text_at(&items, 1)?;
            if items.len() == 2 {
                return Ok(Key::ConnectionsByUserId { user_id });
            }
            let id = text_at(&items, 2)?;
            if items.len() > 3 {
                return Err(KeyError::TrailingElements);
            }
            Ok(Key::Connection { user_id, id })
        } else if is_namespace(&ns, "key-to-user-id") {
            let key = read_single_field(&items, Field::Key)?;
            Ok(Key::KeyToUserId { key })
        } else if is_namespace(&ns, "user-id-to-key") {
            let user_id = read_single_field(&items, Field::UserId)?;
            Ok(Key::UserIdToKey { user_id })
        } else if is_namespace(&ns, "user") {
            let user_id = read_single_field(&items, Field::UserId)?;
            Ok(Key::User { user_id })
        } else if is_namespace(&ns, "requester-releases") {
            if items.len() < 2 {
                return Err(KeyError::MissingField(Field::User));
            }
            let user = text_at(&items, 1)?;
            if items.len() < 3 {
                return Err(KeyError::MissingField(Field::Repo));
            }
            let repo = text_at(&items, 2)?;
            if items.len() > 3 {
                return Err(KeyError::TrailingElements);
            }
            Ok(Key::requesterReleases { user, repo })
        } else {
            let mut args = items;
            args.remove(0);
            proof {
                assert(views(args@) =~= v.drop_first());
            }
            Ok(Key::Unsupported(ns, args))
        }
    }

    /// Deserialize a key.
    pub fn deserialize(bytes: &[u8]) -> (r: Result<Key, KeyError>)
        ensures
            match r {
                Ok(k) => key_from_bytes(bytes@) == Ok::<KeyView, KeyError>(k@),
                Err(e) => key_from_bytes(bytes@) == Err::<KeyView, KeyError>(e),
            },
    {
        match read_array_items(bytes) {
            Some(items) => Key::from_items(items),
            None => Err(KeyError::Malformed),
        }
    }
}

/// Why a byte string is not a key.
#[derive(Debug, Clone, Copy, PartialEq, Eq)]
pub enum KeyError {
    /// Not a CBOR array of well-formed data items with nothing after it.
    Malformed,
    /// The array is empty.
    MissingNamespace,
    /// An element that must be a string is not one.
    NotText,
    /// The namespace needs a field that is absent.
    MissingField(Field),
    /// Elements follow the last field of the namespace.
    TrailingElements,
}

/// The field whose absence a [`KeyError::MissingField`] reports.
#[derive(Debug, Clone, Copy, PartialEq, Eq)]
pub enum Field {
    Name,
    Key,
    UserId,
    User,
    Repo,
}

} // verus!
