//! What holds of the key layout as a whole: decoding the bytes of a key gives
//! the key back, and keys that extend one another extend one another's bytes.
use vstd::prelude::*;
use vstd::utf8::{encode_utf8, encode_utf8_decode_utf8};
use crate::cbor::{
    be_bytes, byte_range, head_bytes, is_text_item, item_len, item_text, leading_text,
    starts_with_text, text_fits, text_item, text_of_item,
};
use crate::frame::{
    array_items, array_start, finish, indefinite_items, item_end, prepend, skip_tags, start_depth,
};
use crate::key::{
    key_bytes, key_elements, key_from_bytes, key_from_items, lemma_flatten_small, KeyError, KeyView,
};

verus! {

/// `be_bytes` has `width` bytes.
proof fn lemma_be_bytes_len(n: nat, width: nat)
    ensures
        be_bytes(n, width).len() == width,
    decreases width,
{
    if width > 0 {
        lemma_be_bytes_len(n / 256, (width - 1) as nat);
    }
}

/// Two numbers that fit `width` bytes and have the same bytes are equal.
proof fn lemma_be_bytes_injective(n1: nat, n2: nat, width: nat)
    requires
        n1 < byte_range(width),
        n2 < byte_range(width),
        be_bytes(n1, width) == be_bytes(n2, width),
    ensures
        n1 == n2,
    decreases width,
{
    if width > 0 {
        let w = (width - 1) as nat;
        let b1 = be_bytes(n1, width);
        let b2 = be_bytes(n2, width);
        assert(b1.last() == b2.last());
        assert(b1.drop_last() =~= be_bytes(n1 / 256, w));
        assert(b2.drop_last() =~= be_bytes(n2 / 256, w));
        let r = byte_range(w);
        assert(n1 / 256 < r && n2 / 256 < r) by (nonlinear_arith)
            requires
                n1 < 256 * r,
                n2 < 256 * r,
        ;
        lemma_be_bytes_injective(n1 / 256, n2 / 256, w);
        assert(n1 % 256 == n2 % 256);
        assert(n1 == 256 * (n1 / 256) + n1 % 256);
        assert(n2 == 256 * (n2 / 256) + n2 % 256);
    }
}

/// Facts about a text head: its length, and that its first byte tells its
/// width and, for small arguments, the argument.
proof fn lemma_head_shape(n: nat)
    ensures
        n < 24 ==> head_bytes(3, n) =~= seq![(96 + n) as u8],
        24 <= n < 0x100 ==> head_bytes(3, n) =~= seq![0x78u8, n as u8],
        0x100 <= n < 0x1_0000 ==> head_bytes(3, n) =~= seq![0x79u8] + be_bytes(n, 2),
        0x1_0000 <= n < 0x1_0000_0000 ==> head_bytes(3, n) =~= seq![0x7au8] + be_bytes(n, 4),
        0x1_0000_0000 <= n ==> head_bytes(3, n) =~= seq![0x7bu8] + be_bytes(n, 8),
        head_bytes(3, n).len() >= 1,
        0x60 <= head_bytes(3, n)[0] <= 0x7b,
{
    lemma_be_bytes_len(n, 2);
    lemma_be_bytes_len(n, 4);
    lemma_be_bytes_len(n, 8);
}

/// Two text heads at the start of the same bytes carry the same argument.
proof fn lemma_head_unique(n1: nat, n2: nat, b: Seq<u8>)
    requires
        n1 < byte_range(8),
        n2 < byte_range(8),
        head_bytes(3, n1).is_prefix_of(b),
        head_bytes(3, n2).is_prefix_of(b),
    ensures
        n1 == n2,
{
    reveal_with_fuel(byte_range, 9);
    lemma_head_shape(n1);
    lemma_head_shape(n2);
    let h1 = head_bytes(3, n1);
    let h2 = head_bytes(3, n2);
    assert(h1[0] == b[0]);
    assert(h2[0] == b[0]);
    if n1 < 24 {
    } else if n1 < 0x100 {
        assert(24 <= n2 < 0x100);
        assert(h1[1] == b[1] && h2[1] == b[1]);
    } else if n1 < 0x1_0000 {
        assert(0x100 <= n2 < 0x1_0000);
        lemma_be_digits(n1, n2, 2, 0x79, b);
    } else if n1 < 0x1_0000_0000 {
        assert(0x1_0000 <= n2 < 0x1_0000_0000);
        lemma_be_digits(n1, n2, 4, 0x7a, b);
    } else {
        assert(0x1_0000_0000 <= n2);
        lemma_be_digits(n1, n2, 8, 0x7b, b);
    }
}

/// Two heads of the same width at the start of `b` carry the same argument.
proof fn lemma_be_digits(n1: nat, n2: nat, w: nat, c: u8, b: Seq<u8>)
    requires
        n1 < byte_range(w),
        n2 < byte_range(w),
        head_bytes(3, n1) == seq![c] + be_bytes(n1, w),
        head_bytes(3, n2) == seq![c] + be_bytes(n2, w),
        head_bytes(3, n1).is_prefix_of(b),
        head_bytes(3, n2).is_prefix_of(b),
    ensures
        n1 == n2,
{
    lemma_be_bytes_len(n1, w);
    lemma_be_bytes_len(n2, w);
    let h1 = head_bytes(3, n1);
    let h2 = head_bytes(3, n2);
    let end = (w + 1) as int;
    assert(be_bytes(n1, w) =~= h1.subrange(1, end));
    assert(be_bytes(n2, w) =~= h2.subrange(1, end));
    assert(h1.subrange(1, end) =~= b.subrange(1, end));
    assert(h2.subrange(1, end) =~= b.subrange(1, end));
    lemma_be_bytes_injective(n1, n2, w);
}

/// Two text items at the start of the same bytes are the same item, and
/// encode the same string.
proof fn lemma_text_prefix_unique(s1: Seq<char>, s2: Seq<char>, b: Seq<u8>)
    requires
        text_fits(s1),
        text_fits(s2),
        text_item(s1).is_prefix_of(b),
        text_item(s2).is_prefix_of(b),
    ensures
        text_item(s1) == text_item(s2),
        s1 == s2,
{
    let u1 = encode_utf8(s1);
    let u2 = encode_utf8(s2);
    let h1 = head_bytes(3, u1.len());
    let h2 = head_bytes(3, u2.len());
    assert(h1.is_prefix_of(b)) by {
        assert(h1 =~= text_item(s1).subrange(0, h1.len() as int));
    }
    assert(h2.is_prefix_of(b)) by {
        assert(h2 =~= text_item(s2).subrange(0, h2.len() as int));
    }
    lemma_head_unique(u1.len(), u2.len(), b);
    assert(text_item(s1) =~= b.subrange(0, text_item(s1).len() as int));
    assert(text_item(s2) =~= b.subrange(0, text_item(s2).len() as int));
    assert(u1 =~= text_item(s1).subrange(h1.len() as int, text_item(s1).len() as int));
    assert(u2 =~= text_item(s2).subrange(h2.len() as int, text_item(s2).len() as int));
    encode_utf8_decode_utf8(s1);
    encode_utf8_decode_utf8(s2);
}

/// Bytes that begin with the item of `s` are read as that item.
proof fn lemma_leading_text(s: Seq<char>, rest: Seq<u8>)
    requires
        text_fits(s),
    ensures
        starts_with_text(text_item(s) + rest),
        leading_text(text_item(s) + rest) == s,
        item_len(text_item(s) + rest) == Some(text_item(s).len()),
{
    let b = text_item(s) + rest;
    assert(text_item(s).is_prefix_of(b)) by {
        assert(text_item(s) =~= b.subrange(0, text_item(s).len() as int));
    }
    let t = leading_text(b);
    lemma_text_prefix_unique(s, t, b);
}

/// The item of `s` stands for `s`.
pub(crate) proof fn lemma_item_text(s: Seq<char>)
    requires
        text_fits(s),
    ensures
        is_text_item(text_item(s)),
        item_text(text_item(s)) == Some(s),
{
    let b = text_item(s);
    assert(b.is_prefix_of(b)) by {
        assert(b =~= b.subrange(0, b.len() as int));
    }
    let t = text_of_item(b);
    assert(text_item(t).is_prefix_of(b)) by {
        assert(text_item(t) =~= b.subrange(0, b.len() as int));
    }
    lemma_text_prefix_unique(s, t, b);
}

/// Every element is the canonical item of a string that fits.
pub open spec fn all_text_items(e: Seq<Seq<u8>>) -> bool {
    forall|j: int| 0 <= j < e.len() ==> #[trigger] is_text_item(e[j])
}

/// Reading the indefinite array body `e[i..]`, "break", gives back `e[i..]`.
proof fn lemma_read_body(e: Seq<Seq<u8>>, i: int, b: Seq<u8>, pos: int)
    requires
        all_text_items(e),
        0 <= i <= e.len(),
        0 <= pos,
        b.subrange(pos, b.len() as int) == e.skip(i).flatten() + seq![0xffu8],
        pos < b.len(),
    ensures
        indefinite_items(b, pos) == Some((e.skip(i), b.len() as int)),
    decreases e.len() - i,
{
    if i == e.len() {
        assert(e.skip(i) =~= Seq::<Seq<u8>>::empty());
        assert(b.subrange(pos, b.len() as int) =~= seq![0xffu8]);
        assert(b[pos] == b.subrange(pos, b.len() as int)[0]);
    } else {
        let item = e[i];
        let s = text_of_item(item);
        assert(is_text_item(e[i]));
        assert(text_fits(s) && text_item(s) == item);
        let rest = e.skip(i + 1).flatten() + seq![0xffu8];
        assert(e.skip(i) =~= seq![item] + e.skip(i + 1));
        vstd::seq_lib::lemma_flatten_concat(seq![item], e.skip(i + 1));
        seq![item].lemma_flatten_one_element();
        assert(b.subrange(pos, b.len() as int) =~= item + rest);
        lemma_leading_text(s, rest);
        lemma_head_shape(encode_utf8(s).len());
        assert(b[pos] == item[0]) by {
            assert(b[pos] == b.subrange(pos, b.len() as int)[0]);
        }
        let next = pos + item.len();
        assert(item_end(b, pos) == Some(next));
        assert(b.subrange(pos, next) =~= item) by {
            assert(b.subrange(pos, next) =~= b.subrange(pos, b.len() as int).subrange(0, item.len() as int));
        }
        assert(b.subrange(next, b.len() as int) =~= rest) by {
            assert(b.subrange(next, b.len() as int) =~= b.subrange(pos, b.len() as int).subrange(
                item.len() as int,
                b.len() - pos,
            ));
        }
        lemma_read_body(e, i + 1, b, next);
        assert(seq![item] + e.skip(i + 1) =~= e.skip(i));
    }
}

/// The array of indefinite length around `e` splits back into `e`.
proof fn lemma_array_items(e: Seq<Seq<u8>>)
    requires
        all_text_items(e),
    ensures
        array_items(seq![0x9fu8] + e.flatten() + seq![0xffu8]) == Some(e),
{
    let b = seq![0x9fu8] + e.flatten() + seq![0xffu8];
    assert(b[0] == 0x9f);
    assert(skip_tags(b, 0, start_depth()) == Some((0int, start_depth())));
    assert(array_start(b, 0) == Some((None::<nat>, 1int)));
    assert(b.subrange(1, b.len() as int) =~= e.skip(0).flatten() + seq![0xffu8]) by {
        assert(e.skip(0) =~= e);
    }
    lemma_read_body(e, 0, b, 1);
    assert(e.skip(0) =~= e);
}

/// The strings of a key all fit a head's argument.
pub open spec fn key_fits(k: KeyView) -> bool {
    match k {
        KeyView::Requesters => true,
        KeyView::Requester { user_login } => text_fits(user_login),
        KeyView::Connection { user_id, id } => text_fits(user_id) && text_fits(id),
        KeyView::ConnectionsByUserId { user_id } => text_fits(user_id),
        KeyView::UserIdToKey { user_id } => text_fits(user_id),
        KeyView::KeyToUserId { key } => text_fits(key),
        KeyView::User { user_id } => text_fits(user_id),
        KeyView::RequesterReleases { user, repo } => text_fits(user) && text_fits(repo),
        KeyView::Unsupported(ns, args) => text_fits(ns),
    }
}

/// A namespace that decoding gives a meaning of its own.
pub open spec fn known_namespace(ns: Seq<char>) -> bool {
    ||| ns == "requester"@
    ||| ns == "connections"@
    ||| ns == "key-to-user-id"@
    ||| ns == "user-id-to-key"@
    ||| ns == "user"@
    ||| ns == "requester-releases"@
}

/// The namespaces are distinct strings, and the one written for requesters
/// is none of those read back.
proof fn lemma_namespaces()
    ensures
        !known_namespace("Requester"@),
        "connections"@ != "requester"@,
        "key-to-user-id"@ != "requester"@,
        "key-to-user-id"@ != "connections"@,
        "user-id-to-key"@ != "requester"@,
        "user-id-to-key"@ != "connections"@,
        "user-id-to-key"@ != "key-to-user-id"@,
        "user"@ != "requester"@,
        "user"@ != "connections"@,
        "user"@ != "key-to-user-id"@,
        "user"@ != "user-id-to-key"@,
        "requester-releases"@ != "requester"@,
        "requester-releases"@ != "connections"@,
        "requester-releases"@ != "key-to-user-id"@,
        "requester-releases"@ != "user-id-to-key"@,
        "requester-releases"@ != "user"@,
        text_fits("Requester"@),
        text_fits("requester"@),
        text_fits("connections"@),
        text_fits("key-to-user-id"@),
        text_fits("user-id-to-key"@),
        text_fits("user"@),
        text_fits("requester-releases"@),
{
    reveal_strlit("Requester");
    reveal_strlit("requester");
    reveal_strlit("connections");
    reveal_strlit("key-to-user-id");
    reveal_strlit("user-id-to-key");
    reveal_strlit("user");
    reveal_strlit("requester-releases");
    assert("Requester"@[0] != "requester"@[0]);
    assert("connections"@[0] != "requester"@[0]);
    assert("key-to-user-id"@[0] != "requester"@[0]);
    assert("user-id-to-key"@.len() != "key-to-user-id"@.len() || "user-id-to-key"@[0]
        != "key-to-user-id"@[0]);
    assert("user"@.len() != "requester"@.len());
    assert("requester-releases"@.len() != "requester"@.len());
    reveal_with_fuel(byte_range, 9);
    reveal_with_fuel(encode_utf8, 20);
}

/// The elements written for a key that fits are canonical text items, save
/// the extra items of a key of an unknown namespace, which are as given.
proof fn lemma_elements_are_text(k: KeyView)
    requires
        key_fits(k),
        k matches KeyView::Unsupported(ns, args) ==> all_text_items(args),
    ensures
        all_text_items(key_elements(k)),
{
    lemma_namespaces();
    let e = key_elements(k);
    match k {
        KeyView::Unsupported(ns, args) => {
            lemma_item_text(ns);
            assert forall|j: int| 0 <= j < e.len() implies #[trigger] is_text_item(e[j]) by {
                if j > 0 {
                    assert(e[j] == args[j - 1]);
                }
            }
        },
        _ => {
            assert forall|j: int| 0 <= j < e.len() implies #[trigger] is_text_item(e[j]) by {
                match k {
                    KeyView::Requester { user_login } => {
                        lemma_item_text(user_login);
                    },
                    KeyView::Connection { user_id, id } => {
                        lemma_item_text(user_id);
                        lemma_item_text(id);
                    },
                    KeyView::ConnectionsByUserId { user_id } => {
                        lemma_item_text(user_id);
                    },
                    KeyView::UserIdToKey { user_id } => {
                        lemma_item_text(user_id);
                    },
                    KeyView::KeyToUserId { key } => {
                        lemma_item_text(key);
                    },
                    KeyView::User { user_id } => {
                        lemma_item_text(user_id);
                    },
                    KeyView::RequesterReleases { user, repo } => {
                        lemma_item_text(user);
                        lemma_item_text(repo);
                    },
                    _ => {},
                }
                lemma_item_text("Requester"@);
                lemma_item_text("connections"@);
                lemma_item_text("key-to-user-id"@);
                lemma_item_text("user-id-to-key"@);
                lemma_item_text("user"@);
                lemma_item_text("requester-releases"@);
            }
        },
    }
}

/// What decoding the bytes of `k` gives: `k` itself, save requester keys,
/// which come back as keys of the namespace "Requester".
pub open spec fn read_back(k: KeyView) -> KeyView {
    match k {
        KeyView::Requesters => KeyView::Unsupported("Requester"@, Seq::empty()),
        KeyView::Requester { user_login } => KeyView::Unsupported(
            "Requester"@,
            seq![text_item(user_login)],
        ),
        _ => k,
    }
}

proof fn lemma_read_requesters(l: Seq<char>)
    requires
        text_fits(l),
    ensures
        key_from_items(key_elements(KeyView::Requesters)) == Ok::<KeyView, KeyError>(
            read_back(KeyView::Requesters),
        ),
        key_from_items(key_elements(KeyView::Requester { user_login: l })) == Ok::<
            KeyView,
            KeyError,
        >(read_back(KeyView::Requester { user_login: l })),
{
    lemma_namespaces();
    lemma_item_text("Requester"@);
    let e1 = key_elements(KeyView::Requesters);
    let e2 = key_elements(KeyView::Requester { user_login: l });
    assert(e1.drop_first() =~= Seq::<Seq<u8>>::empty());
    assert(e2.drop_first() =~= seq![text_item(l)]);
}

proof fn lemma_read_connections(u: Seq<char>, i: Seq<char>)
    requires
        text_fits(u),
        text_fits(i),
    ensures
        key_from_items(key_elements(KeyView::Connection { user_id: u, id: i })) == Ok::<
            KeyView,
            KeyError,
        >(KeyView::Connection { user_id: u, id: i }),
        key_from_items(key_elements(KeyView::ConnectionsByUserId { user_id: u })) == Ok::<
            KeyView,
            KeyError,
        >(KeyView::ConnectionsByUserId { user_id: u }),
{
    lemma_namespaces();
    lemma_item_text("connections"@);
    lemma_item_text(u);
    lemma_item_text(i);
}

proof fn lemma_read_single(u: Seq<char>)
    requires
        text_fits(u),
    ensures
        key_from_items(key_elements(KeyView::UserIdToKey { user_id: u })) == Ok::<
            KeyView,
            KeyError,
        >(KeyView::UserIdToKey { user_id: u }),
        key_from_items(key_elements(KeyView::KeyToUserId { key: u })) == Ok::<KeyView, KeyError>(
            KeyView::KeyToUserId { key: u },
        ),
        key_from_items(key_elements(KeyView::User { user_id: u })) == Ok::<KeyView, KeyError>(
            KeyView::User { user_id: u },
        ),
{
    lemma_namespaces();
    lemma_item_text("key-to-user-id"@);
    lemma_item_text("user-id-to-key"@);
    lemma_item_text("user"@);
    lemma_item_text(u);
}

proof fn lemma_read_releases(u: Seq<char>, r: Seq<char>)
    requires
        text_fits(u),
        text_fits(r),
    ensures
        key_from_items(key_elements(KeyView::RequesterReleases { user: u, repo: r })) == Ok::<
            KeyView,
            KeyError,
        >(KeyView::RequesterReleases { user: u, repo: r }),
{
    lemma_namespaces();
    lemma_item_text("requester-releases"@);
    lemma_item_text(u);
    lemma_item_text(r);
}

proof fn lemma_read_unsupported(ns: Seq<char>, args: Seq<Seq<u8>>)
    requires
        text_fits(ns),
        !known_namespace(ns),
    ensures
        key_from_items(key_elements(KeyView::Unsupported(ns, args))) == Ok::<KeyView, KeyError>(
            KeyView::Unsupported(ns, args),
        ),
{
    lemma_item_text(ns);
    let e = key_elements(KeyView::Unsupported(ns, args));
    assert(e.drop_first() =~= args);
}

/// Decoding the bytes of a key gives the key back. This holds of every key
/// whose strings fit a head's argument, except that requester keys are
/// written under the namespace "Requester" and read under "requester", so
/// their bytes read back as a key of an unknown namespace; a key of an
/// unknown namespace reads back when its namespace is not one that decoding
/// knows and its extra items are strings.
pub proof fn lemma_key_roundtrip(k: KeyView)
    requires
        key_fits(k),
        k matches KeyView::Unsupported(ns, args) ==> !known_namespace(ns) && all_text_items(args),
    ensures
        key_from_bytes(key_bytes(k)) == Ok::<KeyView, KeyError>(read_back(k)),
        !(k is Requesters || k is Requester) ==> key_from_bytes(key_bytes(k)) == Ok::<
            KeyView,
            KeyError,
        >(k),
{
    lemma_elements_are_text(k);
    lemma_array_items(key_elements(k));
    match k {
        KeyView::Requesters => lemma_read_requesters(Seq::empty()),
        KeyView::Requester { user_login } => lemma_read_requesters(user_login),
        KeyView::Connection { user_id, id } => lemma_read_connections(user_id, id),
        KeyView::ConnectionsByUserId { user_id } => lemma_read_connections(user_id, user_id),
        KeyView::UserIdToKey { user_id } => lemma_read_single(user_id),
        KeyView::KeyToUserId { key } => lemma_read_single(key),
        KeyView::User { user_id } => lemma_read_single(user_id),
        KeyView::RequesterReleases { user, repo } => lemma_read_releases(user, repo),
        KeyView::Unsupported(ns, args) => lemma_read_unsupported(ns, args),
    }
}

/// The bytes of each key, element by element: the head of an array of
/// indefinite length, the namespace, the fields in the order the key names
/// them, and the "break" byte. A connection is written with its user before
/// its id, and the releases of a repository with the user before the
/// repository.
pub proof fn lemma_key_layout(a: Seq<char>, b: Seq<char>)
    ensures
        key_bytes(KeyView::Requesters) == seq![0x9fu8] + text_item("Requester"@) + seq![0xffu8],
        key_bytes(KeyView::Requester { user_login: a }) == seq![0x9fu8] + text_item("Requester"@)
            + text_item(a) + seq![0xffu8],
        key_bytes(KeyView::Connection { user_id: a, id: b }) == seq![0x9fu8] + text_item(
            "connections"@,
        ) + text_item(a) + text_item(b) + seq![0xffu8],
        key_bytes(KeyView::ConnectionsByUserId { user_id: a }) == seq![0x9fu8] + text_item(
            "connections"@,
        ) + text_item(a) + seq![0xffu8],
        key_bytes(KeyView::UserIdToKey { user_id: a }) == seq![0x9fu8] + text_item(
            "user-id-to-key"@,
        ) + text_item(a) + seq![0xffu8],
        key_bytes(KeyView::KeyToUserId { key: a }) == seq![0x9fu8] + text_item("key-to-user-id"@)
            + text_item(a) + seq![0xffu8],
        key_bytes(KeyView::User { user_id: a }) == seq![0x9fu8] + text_item("user"@) + text_item(a)
            + seq![0xffu8],
        key_bytes(KeyView::RequesterReleases { user: a, repo: b }) == seq![0x9fu8] + text_item(
            "requester-releases"@,
        ) + text_item(a) + text_item(b) + seq![0xffu8],
{
    let ta = text_item(a);
    let tb = text_item(b);
    let r = text_item("Requester"@);
    let c = text_item("connections"@);
    let uk = text_item("user-id-to-key"@);
    let ku = text_item("key-to-user-id"@);
    let u = text_item("user"@);
    let rr = text_item("requester-releases"@);
    lemma_flatten_small(r, ta, ta);
    lemma_flatten_small(c, ta, tb);
    lemma_flatten_small(uk, ta, ta);
    lemma_flatten_small(ku, ta, ta);
    lemma_flatten_small(u, ta, ta);
    lemma_flatten_small(rr, ta, tb);
    assert(key_bytes(KeyView::Requester { user_login: a }) =~= seq![0x9fu8] + r + ta + seq![0xffu8]);
    assert(key_bytes(KeyView::Connection { user_id: a, id: b }) =~= seq![0x9fu8] + c + ta + tb
        + seq![0xffu8]);
    assert(key_bytes(KeyView::ConnectionsByUserId { user_id: a }) =~= seq![0x9fu8] + c + ta
        + seq![0xffu8]);
    assert(key_bytes(KeyView::UserIdToKey { user_id: a }) =~= seq![0x9fu8] + uk + ta
        + seq![0xffu8]);
    assert(key_bytes(KeyView::KeyToUserId { key: a }) =~= seq![0x9fu8] + ku + ta + seq![0xffu8]);
    assert(key_bytes(KeyView::User { user_id: a }) =~= seq![0x9fu8] + u + ta + seq![0xffu8]);
    assert(key_bytes(KeyView::RequesterReleases { user: a, repo: b }) =~= seq![0x9fu8] + rr + ta
        + tb + seq![0xffu8]);
}

/// Decoding reads the fields in the order they are written: after the
/// namespace "requester-releases" come the user and then the repository;
/// after "connections", the user and then the connection id; after the
/// namespaces of one field, that field; and after "requester", the login of
/// a requester (none: the prefix key of requesters).
pub proof fn lemma_key_decode_layout(a: Seq<char>, b: Seq<char>)
    requires
        text_fits(a),
        text_fits(b),
    ensures
        key_from_bytes(
            seq![0x9fu8] + text_item("requester-releases"@) + text_item(a) + text_item(b) + seq![0xffu8],
        ) == Ok::<KeyView, KeyError>(KeyView::RequesterReleases { user: a, repo: b }),
        key_from_bytes(
            seq![0x9fu8] + text_item("connections"@) + text_item(a) + text_item(b) + seq![0xffu8],
        ) == Ok::<KeyView, KeyError>(KeyView::Connection { user_id: a, id: b }),
        key_from_bytes(seq![0x9fu8] + text_item("connections"@) + text_item(a) + seq![0xffu8])
            == Ok::<KeyView, KeyError>(KeyView::ConnectionsByUserId { user_id: a }),
        key_from_bytes(seq![0x9fu8] + text_item("user-id-to-key"@) + text_item(a) + seq![0xffu8])
            == Ok::<KeyView, KeyError>(KeyView::UserIdToKey { user_id: a }),
        key_from_bytes(seq![0x9fu8] + text_item("key-to-user-id"@) + text_item(a) + seq![0xffu8])
            == Ok::<KeyView, KeyError>(KeyView::KeyToUserId { key: a }),
        key_from_bytes(seq![0x9fu8] + text_item("user"@) + text_item(a) + seq![0xffu8]) == Ok::<
            KeyView,
            KeyError,
        >(KeyView::User { user_id: a }),
        key_from_bytes(seq![0x9fu8] + text_item("requester"@) + text_item(a) + seq![0xffu8])
            == Ok::<KeyView, KeyError>(KeyView::Requester { user_login: a }),
        key_from_bytes(seq![0x9fu8] + text_item("requester"@) + seq![0xffu8]) == Ok::<
            KeyView,
            KeyError,
        >(KeyView::Requesters),
{
    let ta = text_item(a);
    let tb = text_item(b);
    let k1 = KeyView::RequesterReleases { user: a, repo: b };
    assert(key_from_bytes(key_bytes(k1)) == Ok::<KeyView, KeyError>(k1)) by {
        lemma_key_roundtrip(k1);
    }
    let k2 = KeyView::Connection { user_id: a, id: b };
    assert(key_from_bytes(key_bytes(k2)) == Ok::<KeyView, KeyError>(k2)) by {
        lemma_key_roundtrip(k2);
    }
    let k3 = KeyView::ConnectionsByUserId { user_id: a };
    assert(key_from_bytes(key_bytes(k3)) == Ok::<KeyView, KeyError>(k3)) by {
        lemma_key_roundtrip(k3);
    }
    let k4 = KeyView::UserIdToKey { user_id: a };
    assert(key_from_bytes(key_bytes(k4)) == Ok::<KeyView, KeyError>(k4)) by {
        lemma_key_roundtrip(k4);
    }
    let k5 = KeyView::KeyToUserId { key: a };
    assert(key_from_bytes(key_bytes(k5)) == Ok::<KeyView, KeyError>(k5)) by {
        lemma_key_roundtrip(k5);
    }
    let k6 = KeyView::User { user_id: a };
    assert(key_from_bytes(key_bytes(k6)) == Ok::<KeyView, KeyError>(k6)) by {
        lemma_key_roundtrip(k6);
    }
    lemma_key_layout(a, b);
    lemma_read_requester_namespace(a);
}

/// The bytes of a key of the namespace "requester", which decoding reads
/// as requester keys.
proof fn lemma_read_requester_namespace(a: Seq<char>)
    requires
        text_fits(a),
    ensures
        key_from_bytes(seq![0x9fu8] + text_item("requester"@) + text_item(a) + seq![0xffu8])
            == Ok::<KeyView, KeyError>(KeyView::Requester { user_login: a }),
        key_from_bytes(seq![0x9fu8] + text_item("requester"@) + seq![0xffu8]) == Ok::<
            KeyView,
            KeyError,
        >(KeyView::Requesters),
{
    lemma_namespaces();
    lemma_item_text(a);
    lemma_item_text("requester"@);
    let ta = text_item(a);
    let q = text_item("requester"@);
    lemma_flatten_small(q, ta, ta);
    let e1 = seq![q, ta];
    let e0 = seq![q];
    assert(all_text_items(e1));
    assert(all_text_items(e0));
    lemma_array_items(e1);
    lemma_array_items(e0);
    assert(seq![0x9fu8] + q + ta + seq![0xffu8] =~= seq![0x9fu8] + e1.flatten() + seq![0xffu8]);
    assert(seq![0x9fu8] + q + seq![0xffu8] =~= seq![0x9fu8] + e0.flatten() + seq![0xffu8]);
}

/// The bytes of the prefix key of a user's connections, without the final
/// "break" byte, begin the bytes of each connection of that user; likewise
/// the prefix key of requesters and each requester. A range scan from the
/// shortened prefix therefore meets these keys first.
pub proof fn lemma_scan_prefix(user_id: Seq<char>, id: Seq<char>, user_login: Seq<char>)
    ensures
        key_bytes(KeyView::ConnectionsByUserId { user_id }).drop_last().is_prefix_of(
            key_bytes(KeyView::Connection { user_id, id }),
        ),
        key_bytes(KeyView::Requesters).drop_last().is_prefix_of(
            key_bytes(KeyView::Requester { user_login }),
        ),
{
    reveal_with_fuel(Seq::<_>::flatten, 4);
    let c = text_item("connections"@);
    let u = text_item(user_id);
    let i = text_item(id);
    assert(seq![c, u].drop_first() =~= seq![u]);
    assert(seq![u].drop_first() =~= Seq::<Seq<u8>>::empty());
    assert(seq![c, u, i].drop_first() =~= seq![u, i]);
    assert(seq![u, i].drop_first() =~= seq![i]);
    assert(seq![i].drop_first() =~= Seq::<Seq<u8>>::empty());
    let short = key_bytes(KeyView::ConnectionsByUserId { user_id });
    let long = key_bytes(KeyView::Connection { user_id, id });
    assert(short =~= seq![0x9fu8] + c + u + seq![0xffu8]);
    assert(long =~= seq![0x9fu8] + c + u + i + seq![0xffu8]);
    assert(short.drop_last() =~= long.subrange(0, short.drop_last().len() as int));
    let r = text_item("Requester"@);
    let l = text_item(user_login);
    assert(seq![r].drop_first() =~= Seq::<Seq<u8>>::empty());
    assert(seq![r, l].drop_first() =~= seq![l]);
    assert(seq![l].drop_first() =~= Seq::<Seq<u8>>::empty());
    let rs = key_bytes(KeyView::Requesters);
    let rl = key_bytes(KeyView::Requester { user_login });
    assert(rs =~= seq![0x9fu8] + r + seq![0xffu8]);
    assert(rl =~= seq![0x9fu8] + r + l + seq![0xffu8]);
    assert(rs.drop_last() =~= rl.subrange(0, rs.drop_last().len() as int));
}

/// The scan prefix of a user's connections begins the key of a connection
/// only when the connection is that user's: a scan for one user never meets
/// another user's connections before the end of its own, even when one user
/// id begins the other.
pub proof fn lemma_scan_prefix_exact(user_id: Seq<char>, other: Seq<char>, id: Seq<char>)
    requires
        text_fits(user_id),
        text_fits(other),
        key_bytes(KeyView::ConnectionsByUserId { user_id }).drop_last().is_prefix_of(
            key_bytes(KeyView::Connection { user_id: other, id }),
        ),
    ensures
        user_id == other,
{
    reveal_with_fuel(Seq::<_>::flatten, 4);
    let c = text_item("connections"@);
    let u = text_item(user_id);
    let o = text_item(other);
    let i = text_item(id);
    assert(seq![c, u].drop_first() =~= seq![u]);
    assert(seq![u].drop_first() =~= Seq::<Seq<u8>>::empty());
    assert(seq![c, o, i].drop_first() =~= seq![o, i]);
    assert(seq![o, i].drop_first() =~= seq![i]);
    assert(seq![i].drop_first() =~= Seq::<Seq<u8>>::empty());
    let short = key_bytes(KeyView::ConnectionsByUserId { user_id });
    let long = key_bytes(KeyView::Connection { user_id: other, id });
    assert(short =~= seq![0x9fu8] + c + u + seq![0xffu8]);
    assert(long =~= seq![0x9fu8] + c + o + i + seq![0xffu8]);
    let start = 1 + c.len();
    let rest = long.subrange(start as int, long.len() as int);
    assert(rest =~= o + i + seq![0xffu8]);
    assert(o.is_prefix_of(rest)) by {
        assert(o =~= rest.subrange(0, o.len() as int));
    }
    assert(u.is_prefix_of(rest)) by {
        assert(u =~= short.drop_last().subrange(start as int, (start + u.len()) as int));
        assert(short.drop_last() =~= long.subrange(0, short.drop_last().len() as int));
        assert(u =~= rest.subrange(0, u.len() as int));
    }
    lemma_text_prefix_unique(user_id, other, rest);
}

/// The scan prefix of a user's connections begins the prefix key of another
/// user's connections only when the two users are the same, even when one
/// user id begins the other.
pub proof fn lemma_scan_prefix_exact_prefix_key(user_id: Seq<char>, other: Seq<char>)
    requires
        text_fits(user_id),
        text_fits(other),
        key_bytes(KeyView::ConnectionsByUserId { user_id }).drop_last().is_prefix_of(
            key_bytes(KeyView::ConnectionsByUserId { user_id: other }),
        ),
    ensures
        user_id == other,
{
    reveal_with_fuel(Seq::<_>::flatten, 4);
    let c = text_item("connections"@);
    let u = text_item(user_id);
    let o = text_item(other);
    assert(seq![c, u].drop_first() =~= seq![u]);
    assert(seq![u].drop_first() =~= Seq::<Seq<u8>>::empty());
    assert(seq![c, o].drop_first() =~= seq![o]);
    assert(seq![o].drop_first() =~= Seq::<Seq<u8>>::empty());
    let short = key_bytes(KeyView::ConnectionsByUserId { user_id });
    let long = key_bytes(KeyView::ConnectionsByUserId { user_id: other });
    assert(short =~= seq![0x9fu8] + c + u + seq![0xffu8]);
    assert(long =~= seq![0x9fu8] + c + o + seq![0xffu8]);
    let start = 1 + c.len();
    let rest = long.subrange(start as int, long.len() as int);
    assert(rest =~= o + seq![0xffu8]);
    assert(o.is_prefix_of(rest)) by {
        assert(o =~= rest.subrange(0, o.len() as int));
    }
    assert(u.is_prefix_of(rest)) by {
        assert(u =~= short.drop_last().subrange(start as int, (start + u.len()) as int));
        assert(short.drop_last() =~= long.subrange(0, short.drop_last().len() as int));
        assert(u =~= rest.subrange(0, u.len() as int));
    }
    lemma_text_prefix_unique(user_id, other, rest);
}

/// A text item at `pos` is read as one element of an indefinite array: it is
/// no "break" byte, and the element ends where the item does.
proof fn lemma_text_element(b: Seq<u8>, pos: int, t: Seq<char>, rest: Seq<u8>)
    requires
        text_fits(t),
        0 <= pos,
        pos < b.len(),
        b.subrange(pos, b.len() as int) == text_item(t) + rest,
    ensures
        b[pos] != 0xff,
        item_end(b, pos) == Some(pos + text_item(t).len()),
        pos + text_item(t).len() > pos,
        b.subrange(pos, pos + text_item(t).len()) == text_item(t),
        b.subrange(pos + text_item(t).len(), b.len() as int) == rest,
{
    let item = text_item(t);
    lemma_leading_text(t, rest);
    lemma_head_shape(encode_utf8(t).len());
    assert(b[pos] == item[0]) by {
        assert(b[pos] == b.subrange(pos, b.len() as int)[0]);
    }
    assert(b.subrange(pos, pos + item.len()) =~= item) by {
        assert(b.subrange(pos, pos + item.len()) =~= b.subrange(pos, b.len() as int).subrange(
            0,
            item.len() as int,
        ));
    }
    assert(b.subrange(pos + item.len(), b.len() as int) =~= rest) by {
        assert(b.subrange(pos + item.len(), b.len() as int) =~= b.subrange(pos, b.len() as int).subrange(
            item.len() as int,
            b.len() - pos,
        ));
    }
}

/// Every key whose bytes begin with the scan prefix of `user_id`'s
/// connections is the prefix key of `user_id`'s connections or one of
/// `user_id`'s connections, or does not decode: no key of anything else
/// lies among them.
pub proof fn lemma_scan_prefix_keys(user_id: Seq<char>, b: Seq<u8>)
    requires
        text_fits(user_id),
        key_bytes(KeyView::ConnectionsByUserId { user_id }).drop_last().is_prefix_of(b),
    ensures
        match key_from_bytes(b) {
            Ok(KeyView::ConnectionsByUserId { user_id: u }) => u == user_id,
            Ok(KeyView::Connection { user_id: u, id }) => u == user_id,
            Ok(_) => false,
            Err(_) => true,
        },
{
    lemma_namespaces();
    reveal_with_fuel(Seq::<_>::flatten, 3);
    let c = text_item("connections"@);
    let u = text_item(user_id);
    assert(seq![c, u].drop_first() =~= seq![u]);
    assert(seq![u].drop_first() =~= Seq::<Seq<u8>>::empty());
    let p = key_bytes(KeyView::ConnectionsByUserId { user_id }).drop_last();
    assert(p =~= seq![0x9fu8] + c + u);
    let rest = b.subrange(p.len() as int, b.len() as int);
    assert(b =~= seq![0x9fu8] + c + u + rest) by {
        assert(p =~= b.subrange(0, p.len() as int));
    }
    match array_items(b) {
        None => {},
        Some(items) => {
            assert(b[0] == 0x9f);
            assert(skip_tags(b, 0, start_depth()) == Some((0int, start_depth())));
            assert(array_start(b, 0) == Some((None::<nat>, 1int)));
            assert(b.subrange(1, b.len() as int) =~= c + (u + rest));
            lemma_text_element(b, 1, "connections"@, u + rest);
            let next: int = 1int + c.len();
            lemma_text_element(b, next, user_id, rest);
            let after: int = next + u.len();
            let tail = indefinite_items(b, after);
            assert(array_items(b) == finish(indefinite_items(b, 1), b.len() as int));
            assert(indefinite_items(b, 1) == prepend(
                seq![b.subrange(1, next)],
                indefinite_items(b, next),
            ));
            assert(indefinite_items(b, next) == prepend(seq![b.subrange(next, after)], tail));
            assert(tail is Some);
            assert(items == seq![c] + (seq![u] + tail->Some_0.0));
            assert(items[0] == c);
            assert(items[1] == u);
            lemma_item_text("connections"@);
            lemma_item_text(user_id);
        },
    }
}

/// Keys of the namespaces this version knows, requester keys among them,
/// never share bytes: two such keys with the same bytes are the same key.
pub proof fn lemma_known_key_bytes_distinct(k1: KeyView, k2: KeyView)
    requires
        key_fits(k1),
        key_fits(k2),
        !(k1 is Unsupported),
        !(k2 is Unsupported),
        key_bytes(k1) == key_bytes(k2),
    ensures
        k1 == k2,
{
    lemma_key_roundtrip(k1);
    lemma_key_roundtrip(k2);
    assert(read_back(k1) == read_back(k2));
    match k1 {
        KeyView::Requester { user_login: l1 } => {
            match k2 {
                KeyView::Requester { user_login: l2 } => {
                    assert(seq![text_item(l1)][0] == seq![text_item(l2)][0]);
                    lemma_item_text(l1);
                    lemma_item_text(l2);
                },
                KeyView::Requesters => {
                    assert(seq![text_item(l1)].len() == 1);
                },
                _ => {},
            }
        },
        KeyView::Requesters => {
            match k2 {
                KeyView::Requester { user_login: l2 } => {
                    assert(seq![text_item(l2)].len() == 1);
                },
                _ => {},
            }
        },
        _ => {},
    }
}

/// Distinct keys are stored under distinct bytes, so that no record
/// overwrites another's: two keys whose bytes are equal read back as the
/// same key, and are equal unless one of them is a requester key (whose bytes
/// equal those of the key of the unknown namespace "Requester" it reads back
/// as).
pub proof fn lemma_key_bytes_distinct(k1: KeyView, k2: KeyView)
    requires
        key_fits(k1),
        key_fits(k2),
        k1 matches KeyView::Unsupported(ns, args) ==> !known_namespace(ns) && all_text_items(args),
        k2 matches KeyView::Unsupported(ns, args) ==> !known_namespace(ns) && all_text_items(args),
        key_bytes(k1) == key_bytes(k2),
    ensures
        read_back(k1) == read_back(k2),
        !(k1 is Requesters || k1 is Requester || k2 is Requesters || k2 is Requester) ==> k1 == k2,
{
    lemma_key_roundtrip(k1);
    lemma_key_roundtrip(k2);
}

} // verus!
