//! Splitting a CBOR array into the encodings of its elements, the way
//! serde_cbor's deserializer walks an array: optional tags before it (each
//! costing one level of its nesting allowance of 128), a head of definite or
//! indefinite length, the elements, the "break" byte of an indefinite array,
//! and nothing after the array.
use vstd::prelude::*;
use vstd::slice::{slice_subrange, slice_to_vec};
use crate::cbor::{be_value, byte_range, item_len, read_item_len};

verus! {

/// Nesting allowance serde_cbor starts with.
pub open spec fn start_depth() -> int {
    128
}

/// Number of bytes of the argument after an initial byte whose additional
/// information is `info` (one of 24..=27).
pub open spec fn arg_width(info: nat) -> nat {
    if info == 24 {
        1
    } else if info == 25 {
        2
    } else if info == 26 {
        4
    } else {
        8
    }
}

/// Reads the head that starts at `pos`: its argument and the position after
/// it (`None`: the head is cut short, or its additional information is not
/// one of 0..=27).
pub open spec fn read_head(b: Seq<u8>, pos: int) -> Option<(nat, int)> {
    if !(0 <= pos < b.len()) {
        None
    } else {
        let info = (b[pos] % 32) as nat;
        if info < 24 {
            Some((info, pos + 1))
        } else if info <= 27 {
            let w = arg_width(info);
            if pos + 1 + w <= b.len() {
                Some((be_value(b.subrange(pos + 1, pos + 1 + w)), pos + 1 + w))
            } else {
                None
            }
        } else {
            None
        }
    }
}

/// Skips the tags that start at `pos`, with `depth` levels of nesting left:
/// the position after them and the levels then left.
pub open spec fn skip_tags(b: Seq<u8>, pos: int, depth: int) -> Option<(int, int)>
    decreases b.len() - pos,
{
    if 0 <= pos < b.len() && 0xc0 <= b[pos] <= 0xdb {
        match read_head(b, pos) {
            Some((_, next)) => if depth <= 1 || next <= pos {
                None
            } else {
                skip_tags(b, next, depth - 1)
            },
            None => None,
        }
    } else {
        Some((pos, depth))
    }
}

/// Reads an array head at `pos`: the number of elements (`None` for an array
/// of indefinite length) and the position of the first element.
pub open spec fn array_start(b: Seq<u8>, pos: int) -> Option<(Option<nat>, int)> {
    if !(0 <= pos < b.len()) {
        None
    } else if b[pos] == 0x9f {
        Some((None, pos + 1))
    } else if 0x80 <= b[pos] <= 0x9b {
        match read_head(b, pos) {
            Some((n, next)) => if n <= usize::MAX {
                Some((Some(n), next))
            } else {
                None
            },
            None => None,
        }
    } else {
        None
    }
}

/// The end of the data item that starts at `pos`.
pub open spec fn item_end(b: Seq<u8>, pos: int) -> Option<int> {
    if 0 <= pos <= b.len() {
        match item_len(b.subrange(pos, b.len() as int)) {
            Some(l) => if 0 < l && pos + l <= b.len() {
                Some(pos + l)
            } else {
                None
            },
            None => None,
        }
    } else {
        None
    }
}

/// Puts `pre` in front of the elements of a successful read.
pub open spec fn prepend(pre: Seq<Seq<u8>>, r: Option<(Seq<Seq<u8>>, int)>) -> Option<
    (Seq<Seq<u8>>, int),
> {
    match r {
        Some((items, end)) => Some((pre + items, end)),
        None => None,
    }
}

/// Reads `n` data items from `pos`: their encodings and the position after
/// the last.
pub open spec fn definite_items(b: Seq<u8>, pos: int, n: nat) -> Option<(Seq<Seq<u8>>, int)>
    decreases n,
{
    if n == 0 {
        Some((Seq::empty(), pos))
    } else {
        match item_end(b, pos) {
            Some(next) => prepend(
                seq![b.subrange(pos, next)],
                definite_items(b, next, (n - 1) as nat),
            ),
            None => None,
        }
    }
}

/// Reads data items from `pos` up to a "break" byte: their encodings and the
/// position after the break.
pub open spec fn indefinite_items(b: Seq<u8>, pos: int) -> Option<(Seq<Seq<u8>>, int)>
    decreases b.len() - pos,
{
    if !(0 <= pos < b.len()) {
        None
    } else if b[pos] == 0xff {
        Some((Seq::empty(), pos + 1))
    } else {
        match item_end(b, pos) {
            Some(next) => if next > pos {
                prepend(seq![b.subrange(pos, next)], indefinite_items(b, next))
            } else {
                None
            },
            None => None,
        }
    }
}

/// The encodings of the elements of the array that makes up all of `b`
/// (`None`: `b` is not one such array).
pub open spec fn array_items(b: Seq<u8>) -> Option<Seq<Seq<u8>>> {
    match skip_tags(b, 0, start_depth()) {
        Some((pos, depth)) => if depth <= 1 {
            None
        } else {
            match array_start(b, pos) {
                Some((count, body)) => {
                    let parsed = match count {
                        Some(n) => definite_items(b, body, n),
                        None => indefinite_items(b, body),
                    };
                    match parsed {
                        Some((items, end)) => if end == b.len() {
                            Some(items)
                        } else {
                            None
                        },
                        None => None,
                    }
                },
                None => None,
            }
        },
        None => None,
    }
}

/// The elements of a read array, provided the array ends exactly at `len`.
pub open spec fn finish(r: Option<(Seq<Seq<u8>>, int)>, len: int) -> Option<Seq<Seq<u8>>> {
    match r {
        Some((items, end)) => if end == len {
            Some(items)
        } else {
            None
        },
        None => None,
    }
}

/// The view of a list of byte strings.
pub open spec fn views(v: Seq<Vec<u8>>) -> Seq<Seq<u8>> {
    v.map_values(|a: Vec<u8>| a@)
}

/// A big-endian number of `b.len()` bytes is below `byte_range(b.len())`.
proof fn lemma_be_value_bound(b: Seq<u8>)
    ensures
        be_value(b) < byte_range(b.len()),
    decreases b.len(),
{
    if b.len() > 0 {
        lemma_be_value_bound(b.drop_last());
        let v = be_value(b.drop_last());
        let r = byte_range(b.drop_last().len());
        assert(v * 256 + b.last() < r * 256) by (nonlinear_arith)
            requires
                v < r,
                b.last() < 256,
        ;
    }
}

/// Reads the big-endian number in `b[start..start + width]`.
fn read_be(b: &[u8], start: usize, width: usize) -> (v: u64)
    requires
        start + width <= b@.len(),
        width <= 8,
    ensures
        v == be_value(b@.subrange(start as int, start + width)),
{
    let total = b.len();
    let mut v: u64 = 0;
    let mut k: usize = 0;
    proof {
        reveal_with_fuel(byte_range, 9);
    }
    while k < width
        invariant
            k <= width <= 8,
            start + width <= b@.len() == total,
            v == be_value(b@.subrange(start as int, start + k)),
            byte_range(8) == 0x1_0000_0000_0000_0000,
        decreases width - k,
    {
        let ghost prev = b@.subrange(start as int, start + k);
        let ghost next = b@.subrange(start as int, start + k + 1);
        proof {
            lemma_be_value_bound(prev);
            lemma_byte_range_mono(prev.len(), 7);
            assert(next.drop_last() =~= prev);
        }
        assert(v * 256 + 255 < 0x1_0000_0000_0000_0000) by (nonlinear_arith)
            requires
                v < 0x1_0000_0000_0000_00,
        ;
        let byte = b[start + k];
        v = v * 256 + byte as u64;
        k = k + 1;
    }
    v
}

/// `byte_range` grows with the width.
proof fn lemma_byte_range_mono(a: nat, c: nat)
    requires
        a <= c,
    ensures
        byte_range(a) <= byte_range(c),
        byte_range(7) == 0x1_0000_0000_0000_00,
    decreases c,
{
    reveal_with_fuel(byte_range, 8);
    if a < c {
        lemma_byte_range_mono(a, (c - 1) as nat);
    }
}

/// Reads the head at `pos`, as [`read_head`].
fn read_head_at(b: &[u8], pos: usize) -> (r: Option<(u64, usize)>)
    requires
        pos < b@.len(),
    ensures
        match r {
            Some((n, next)) => read_head(b@, pos as int) == Some((n as nat, next as int)),
            None => read_head(b@, pos as int) is None,
        },
{
    let info = b[pos] % 32;
    if info < 24 {
        Some((info as u64, pos + 1))
    } else if info <= 27 {
        let w: usize = if info == 24 {
            1
        } else if info == 25 {
            2
        } else if info == 26 {
            4
        } else {
            8
        };
        if w <= b.len() - pos - 1 {
            let v = read_be(b, pos + 1, w);
            Some((v, pos + 1 + w))
        } else {
            None
        }
    } else {
        None
    }
}

/// The end of the data item at `pos`, as [`item_end`].
fn item_end_at(b: &[u8], pos: usize) -> (r: Option<usize>)
    requires
        pos <= b@.len(),
    ensures
        match r {
            Some(next) => item_end(b@, pos as int) == Some(next as int),
            None => item_end(b@, pos as int) is None,
        },
{
    let rest = slice_subrange(b, pos, b.len());
    match read_item_len(rest) {
        Some(l) => {
            if l <= b.len() - pos {
                Some(pos + l)
            } else {
                None
            }
        },
        None => None,
    }
}

/// Splits `bytes` into the encodings of the elements of the array it holds,
/// as [`array_items`].
pub fn read_array_items(bytes: &[u8]) -> (items: Option<Vec<Vec<u8>>>)
    ensures
        match items {
            Some(v) => array_items(bytes@) == Some(views(v@)),
            None => array_items(bytes@) is None,
        },
{
    let len = bytes.len();
    let mut pos: usize = 0;
    let mut depth: u64 = 128;
    while pos < len && 0xc0 <= bytes[pos] && bytes[pos] <= 0xdb
        invariant
            pos <= len == bytes@.len(),
            0 < depth <= 128,
            skip_tags(bytes@, 0, start_depth()) == skip_tags(bytes@, pos as int, depth as int),
        decreases len - pos,
    {
        match read_head_at(bytes, pos) {
            Some((_, next)) => {
                if depth <= 1 || next <= pos {
                    return None;
                }
                pos = next;
                depth = depth - 1;
            },
            None => {
                return None;
            },
        }
    }
    if depth <= 1 || pos >= len {
        return None;
    }
    let head = bytes[pos];
    let mut items: Vec<Vec<u8>> = Vec::new();
    if head == 0x9f {
        let ghost body = pos + 1;
        pos = pos + 1;
        loop
            invariant_except_break
                pos <= len == bytes@.len(),
                array_items(bytes@) == finish(indefinite_items(bytes@, body), len as int),
                indefinite_items(bytes@, body) == prepend(
                    views(items@),
                    indefinite_items(bytes@, pos as int),
                ),
            ensures
                array_items(bytes@) == finish(indefinite_items(bytes@, body), len as int),
                indefinite_items(bytes@, body) == Some((views(items@), pos as int)),
                pos <= len,
            decreases len - pos,
        {
            if pos >= len {
                return None;
            }
            if bytes[pos] == 0xff {
                pos = pos + 1;
                proof {
                    assert(views(items@) + Seq::<Seq<u8>>::empty() =~= views(items@));
                }
                break;
            }
            match item_end_at(bytes, pos) {
                Some(next) => {
                    if next <= pos {
                        return None;
                    }
                    let item = slice_to_vec(slice_subrange(bytes, pos, next));
                    let ghost old_items = views(items@);
                    items.push(item);
                    proof {
                        assert(views(items@) =~= old_items + seq![bytes@.subrange(pos as int, next as int)]);
                        let r = indefinite_items(bytes@, next as int);
                        match r {
                            Some((rest, end)) => {
                                assert(old_items + (seq![bytes@.subrange(pos as int, next as int)] + rest)
                                    =~= views(items@) + rest);
                            },
                            None => {},
                        }
                    }
                    pos = next;
                },
                None => {
                    return None;
                },
            }
        }
    } else if 0x80 <= head && head <= 0x9b {
        let (n, body) = match read_head_at(bytes, pos) {
            Some(h) => h,
            None => {
                return None;
            },
        };
        if n > usize::MAX as u64 {
            return None;
        }
        pos = body;
        let mut i: u64 = 0;
        while i < n
            invariant
                i <= n,
                pos <= len == bytes@.len(),
                n <= usize::MAX,
                array_items(bytes@) == finish(definite_items(bytes@, body as int, n as nat), len as int),
                definite_items(bytes@, body as int, n as nat) == prepend(
                    views(items@),
                    definite_items(bytes@, pos as int, (n - i) as nat),
                ),
            decreases n - i,
        {
            match item_end_at(bytes, pos) {
                Some(next) => {
                    let item = slice_to_vec(slice_subrange(bytes, pos, next));
                    let ghost old_items = views(items@);
                    items.push(item);
                    proof {
                        assert(views(items@) =~= old_items + seq![bytes@.subrange(pos as int, next as int)]);
                        let r = definite_items(bytes@, next as int, (n - i - 1) as nat);
                        match r {
                            Some((rest, end)) => {
                                assert(old_items + (seq![bytes@.subrange(pos as int, next as int)] + rest)
                                    =~= views(items@) + rest);
                            },
                            None => {},
                        }
                    }
                    pos = next;
                },
                None => {
                    return None;
                },
            }
            i = i + 1;
        }
        proof {
            assert(views(items@) + Seq::<Seq<u8>>::empty() =~= views(items@));
        }
    } else {
        return None;
    }
    if pos != len {
        return None;
    }
    Some(items)
}

} // verus!
