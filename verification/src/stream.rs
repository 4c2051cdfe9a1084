//! Decoding a stream that arrives in pieces.

use vstd::prelude::*;
use vstd::utf8::*;
use bytes::BytesMut;
use crate::buffer::buffered;
use crate::codec::{decode, wire, wire_frame, CodecError, Decoded, ItemView, StompCodec, StompItem};
use crate::scan::LF;
use crate::wire::{agrees, lemma_agrees_split, lemma_decode_wire, lemma_wire_shape, normalized,
    valid_frame};

verus! {

/// What a decoder has made of the bytes given to it so far.
pub struct Fed {
    /// The items decoded, in order.
    pub items: Seq<ItemView>,
    /// The bytes that are left in the buffer.
    pub rest: Seq<u8>,
    /// The protocol error that stopped decoding, if one did.
    pub error: Option<CodecError>,
}

/// One decoding step on `buf`: what `decode` finds there.
#[verifier::opaque]
pub open spec fn step(buf: Seq<u8>) -> Decoded {
    decode(buf)
}

/// Decodes items off the front of `buf` until more bytes are needed or an
/// error is met.
#[verifier::opaque]
pub open spec fn drain(buf: Seq<u8>) -> Fed
    decreases buf.len(),
{
    match step(buf) {
        Decoded::NeedMore => Fed { items: Seq::empty(), rest: buf, error: None },
        Decoded::Error { error, consumed } => Fed {
            items: Seq::empty(),
            rest: buf.skip(consumed),
            error: Some(error),
        },
        Decoded::Item { item, consumed } => if 0 < consumed <= buf.len() {
            let r = drain(buf.skip(consumed));
            Fed { items: seq![item] + r.items, rest: r.rest, error: r.error }
        } else {
            Fed { items: Seq::empty(), rest: buf, error: None }
        },
    }
}

/// Gives the chunks to the decoder one after the other: each is appended
/// to the buffer, which is then drained.
#[verifier::opaque]
pub open spec fn feed(items: Seq<ItemView>, buf: Seq<u8>, chunks: Seq<Seq<u8>>) -> Fed
    decreases chunks.len(),
{
    if chunks.len() == 0 {
        Fed { items, rest: buf, error: None }
    } else {
        let d = drain(buf + chunks[0]);
        if d.error is Some {
            Fed { items: items + d.items, rest: d.rest, error: d.error }
        } else {
            feed(items + d.items, d.rest, chunks.skip(1))
        }
    }
}

/// Draining stops where the next step needs more bytes.
pub proof fn lemma_drain_wait(s: Seq<u8>)
    requires
        step(s) is NeedMore,
    ensures
        drain(s) == (Fed { items: Seq::empty(), rest: s, error: None }),
{
    reveal(drain);
}

/// Draining goes on behind an item.
pub proof fn lemma_drain_step(s: Seq<u8>, item: ItemView, n: int)
    requires
        step(s) == (Decoded::Item { item, consumed: n }),
        0 < n <= s.len(),
    ensures
        drain(s) == (Fed {
            items: seq![item] + drain(s.skip(n)).items,
            rest: drain(s.skip(n)).rest,
            error: drain(s.skip(n)).error,
        }),
{
    reveal(drain);
}

/// Draining stops at an error, behind the bytes that the step passed over.
pub proof fn lemma_drain_fail(s: Seq<u8>, error: CodecError, n: int)
    requires
        step(s) == (Decoded::Error { error, consumed: n }),
    ensures
        drain(s) == (Fed { items: Seq::empty(), rest: s.skip(n), error: Some(error) }),
{
    reveal(drain);
}

/// Views a list of items.
pub open spec fn items_view(v: Seq<StompItem>) -> Seq<ItemView> {
    Seq::new(v.len(), |i: int| v[i]@)
}

/// Takes every whole item off the front of `src`. It stops where more
/// bytes are needed, or at the first protocol error, which it gives along
/// with the items before it.
#[verifier::rlimit(40)]
pub fn drain_buffer(codec: &mut StompCodec, src: &mut BytesMut) -> (r: (
    Vec<StompItem>,
    Option<CodecError>,
))
    ensures
        items_view(r.0@) == drain(buffered(*old(src))).items,
        buffered(*final(src)) == drain(buffered(*old(src))).rest,
        r.1 == drain(buffered(*old(src))).error,
{
    let ghost start = buffered(*src);
    let mut out: Vec<StompItem> = Vec::new();
    assert(items_view(out@) + drain(start).items =~= drain(start).items);
    loop
        invariant
            start == buffered(*old(src)),
            drain(start).items == items_view(out@) + drain(buffered(*src)).items,
            drain(start).rest == drain(buffered(*src)).rest,
            drain(start).error == drain(buffered(*src)).error,
        decreases buffered(*src).len(),
    {
        let ghost cur = buffered(*src);
        proof {
            reveal(step);
        }
        match codec.decode(src) {
            Ok(None) => {
                proof {
                    lemma_drain_wait(cur);
                    assert(items_view(out@) + Seq::<ItemView>::empty() =~= items_view(out@));
                }
                return (out, None);
            },
            Err(e) => {
                proof {
                    lemma_drain_fail(cur, e, decode(cur)->Error_consumed);
                    assert(items_view(out@) + Seq::<ItemView>::empty() =~= items_view(out@));
                }
                return (out, Some(e));
            },
            Ok(Some(item)) => {
                let ghost before = items_view(out@);
                proof {
                    lemma_drain_step(cur, item@, decode(cur)->Item_consumed);
                }
                out.push(item);
                proof {
                    let later = drain(buffered(*src)).items;
                    assert(items_view(out@) =~= before + seq![item@]);
                    assert(before + (seq![item@] + later) =~= (before + seq![item@]) + later);
                }
            },
        }
    }
}

/// Feeding no chunk changes nothing.
pub proof fn lemma_feed_end(done: Seq<ItemView>, buf: Seq<u8>, chunks: Seq<Seq<u8>>)
    requires
        chunks.len() == 0,
    ensures
        feed(done, buf, chunks) == (Fed { items: done, rest: buf, error: None }),
{
    reveal(feed);
}

/// Feeding goes on behind a chunk that drains without error.
pub proof fn lemma_feed_step(done: Seq<ItemView>, buf: Seq<u8>, chunks: Seq<Seq<u8>>)
    requires
        chunks.len() > 0,
        drain(buf + chunks[0]).error is None,
    ensures
        feed(done, buf, chunks) == feed(
            done + drain(buf + chunks[0]).items,
            drain(buf + chunks[0]).rest,
            chunks.skip(1),
        ),
{
    reveal(feed);
}

/// The chunks in a row.
pub open spec fn joined(chunks: Seq<Seq<u8>>) -> Seq<u8>
    decreases chunks.len(),
{
    if chunks.len() == 0 {
        Seq::empty()
    } else {
        chunks[0] + joined(chunks.skip(1))
    }
}

/// The wire forms of the items in a row.
pub open spec fn wire_all(items: Seq<ItemView>) -> Seq<u8>
    decreases items.len(),
{
    if items.len() == 0 {
        Seq::empty()
    } else {
        wire(items[0]) + wire_all(items.skip(1))
    }
}

/// An item that the decoder gives back as it was encoded.
pub open spec fn valid_item(item: ItemView) -> bool {
    match item {
        ItemView::Heartbeat => true,
        ItemView::Frame(f) => valid_frame(f),
    }
}

/// A sequence of valid items in which no heartbeat comes directly after a
/// frame: the decoder takes a line feed there as the end of the frame.
pub open spec fn valid_stream(items: Seq<ItemView>) -> bool {
    forall|i: int|
        0 <= i < items.len() ==> valid_item(#[trigger] items[i]) && (items[i] is Frame && i + 1
            < items.len() ==> items[i + 1] is Frame)
}

/// An item as the decoder gives it back.
pub open spec fn normal(item: ItemView) -> ItemView {
    match item {
        ItemView::Heartbeat => ItemView::Heartbeat,
        ItemView::Frame(f) => ItemView::Frame(normalized(f)),
    }
}

/// The items as the decoder gives them back.
pub open spec fn normal_all(items: Seq<ItemView>) -> Seq<ItemView> {
    Seq::new(items.len(), |i: int| normal(items[i]))
}

/// The number of items of `items` that lie whole within the first `m`
/// bytes of their wire form.
pub open spec fn whole(items: Seq<ItemView>, m: int) -> int
    decreases items.len(),
{
    if items.len() == 0 || wire(items[0]).len() > m {
        0
    } else {
        1 + whole(items.skip(1), m - wire(items[0]).len())
    }
}

/// The number of bytes that those items take.
pub open spec fn taken(items: Seq<ItemView>, m: int) -> int
    decreases items.len(),
{
    if items.len() == 0 || wire(items[0]).len() > m {
        0
    } else {
        wire(items[0]).len() + taken(items.skip(1), m - wire(items[0]).len())
    }
}

/// The wire form of a valid item is not empty, and that of a frame does
/// not start with a line feed.
pub proof fn lemma_wire_start(item: ItemView)
    requires
        valid_item(item),
    ensures
        wire(item).len() > 0,
        item is Frame ==> wire(item)[0] != LF,
{
    match item {
        ItemView::Heartbeat => {},
        ItemView::Frame(f) => {
            lemma_wire_shape(f);
            let c = encode_utf8(f.command);
            assert(wire_frame(f)[0] == c[0]);
        },
    }
}

/// A shorter valid stream is left when the first item goes.
pub proof fn lemma_valid_rest(items: Seq<ItemView>)
    requires
        valid_stream(items),
        items.len() > 0,
    ensures
        valid_stream(items.skip(1)),
{
    let rest = items.skip(1);
    assert forall|i: int| 0 <= i < rest.len() implies valid_item(#[trigger] rest[i]) && (rest[i] is Frame
        && i + 1 < rest.len() ==> rest[i + 1] is Frame) by {
        assert(rest[i] == items[i + 1]);
        if i + 1 < rest.len() {
            assert(rest[i + 1] == items[i + 2]);
        }
    }
}

/// What the decoder makes of a buffer that holds a valid stream as far as
/// it goes: it waits until the first item is whole, and then gives it.
#[verifier::rlimit(40)]
pub proof fn lemma_decode_first(items: Seq<ItemView>, s: Seq<u8>)
    requires
        valid_stream(items),
        items.len() > 0,
        agrees(s, 0, wire_all(items)),
        s.len() <= wire_all(items).len(),
    ensures
        s.len() < wire(items[0]).len() ==> step(s) is NeedMore,
        s.len() >= wire(items[0]).len() ==> step(s) == (Decoded::Item {
            item: normal(items[0]),
            consumed: wire(items[0]).len() as int,
        }),
{
    reveal(step);
    let w0 = wire(items[0]);
    let rest = wire_all(items.skip(1));
    assert(valid_item(items[0]));
    lemma_wire_start(items[0]);
    lemma_agrees_split(s, 0, w0, rest);
    match items[0] {
        ItemView::Heartbeat => {
            if s.len() >= 1 {
                assert(s[0] == w0[0]);
            }
        },
        ItemView::Frame(f) => {
            lemma_decode_wire(f, s);
            if s.len() > w0.len() {
                assert(rest.len() > 0);
                assert(items.skip(1).len() > 0);
                assert(items.len() >= 2);
                assert(items[1] is Frame);
                assert(items.skip(1)[0] == items[1]);
                assert(valid_item(items[1]));
                lemma_wire_start(items[1]);
                let w1 = wire(items[1]);
                assert(rest[0] == w1[0]);
                assert(s[w0.len() as int] == rest[0]);
            }
        },
    }
}

/// A valid stream is left when the first `k` items go.
pub proof fn lemma_valid_skip(items: Seq<ItemView>, k: int)
    requires
        valid_stream(items),
        0 <= k <= items.len(),
    ensures
        valid_stream(items.skip(k)),
{
    let rest = items.skip(k);
    assert forall|i: int| 0 <= i < rest.len() implies valid_item(#[trigger] rest[i]) && (rest[i] is Frame
        && i + 1 < rest.len() ==> rest[i + 1] is Frame) by {
        assert(rest[i] == items[i + k]);
        if i + 1 < rest.len() {
            assert(rest[i + 1] == items[i + k + 1]);
        }
    }
}

/// The wire form of a stream is that of its first `k` items and then that
/// of the others.
pub proof fn lemma_wire_all_split(items: Seq<ItemView>, k: int)
    requires
        0 <= k <= items.len(),
    ensures
        wire_all(items) == wire_all(items.take(k)) + wire_all(items.skip(k)),
    decreases k,
{
    if k == 0 {
        assert(items.take(0) =~= Seq::empty());
        assert(items.skip(0) =~= items);
        assert(wire_all(items.take(0)) + wire_all(items) =~= wire_all(items));
    } else {
        let w0 = wire(items[0]);
        let rest = items.skip(1);
        lemma_wire_all_split(rest, k - 1);
        assert(items.take(k).skip(1) =~= rest.take(k - 1));
        assert(items.take(k)[0] == items[0]);
        assert(items.skip(k) =~= rest.skip(k - 1));
        assert(w0 + (wire_all(rest.take(k - 1)) + wire_all(rest.skip(k - 1))) =~= (w0 + wire_all(
            rest.take(k - 1),
        )) + wire_all(rest.skip(k - 1)));
    }
}

/// The bounds of `whole` and `taken`: the wire forms of the first `whole`
/// items fill the first `taken` bytes, and the next item does not lie
/// whole in what is left.
#[verifier::rlimit(40)]
pub proof fn lemma_whole(items: Seq<ItemView>, m: int)
    requires
        0 <= m,
    ensures
        0 <= whole(items, m) <= items.len(),
        0 <= taken(items, m) <= m,
        taken(items, m) == wire_all(items.take(whole(items, m))).len(),
        whole(items.skip(whole(items, m)), m - taken(items, m)) == 0,
    decreases items.len(),
{
    if items.len() == 0 || wire(items[0]).len() > m {
        assert(items.take(0) =~= Seq::empty());
        assert(items.skip(0) =~= items);
    } else {
        let n0 = wire(items[0]).len() as int;
        let rest = items.skip(1);
        lemma_whole(rest, m - n0);
        let k = whole(rest, m - n0);
        assert(items.take(k + 1).skip(1) =~= rest.take(k));
        assert(items.take(k + 1)[0] == items[0]);
        assert(items.skip(k + 1) =~= rest.skip(k));
    }
}

/// The facts about `whole` and `taken` for a valid stream.
pub proof fn lemma_taken(items: Seq<ItemView>, m: int)
    requires
        valid_stream(items),
        0 <= m <= wire_all(items).len(),
    ensures
        0 <= whole(items, m) <= items.len(),
        0 <= taken(items, m) <= m,
        taken(items, m) == wire_all(items.take(whole(items, m))).len(),
        wire_all(items) == wire_all(items.take(whole(items, m))) + wire_all(
            items.skip(whole(items, m)),
        ),
        valid_stream(items.skip(whole(items, m))),
        whole(items.skip(whole(items, m)), m - taken(items, m)) == 0,
{
    lemma_whole(items, m);
    lemma_wire_all_split(items, whole(items, m));
    lemma_valid_skip(items, whole(items, m));
}

/// The items as the decoder gives them back, first item first.
pub proof fn lemma_normal_front(items: Seq<ItemView>, k: int)
    requires
        items.len() > 0,
        0 <= k <= items.len() - 1,
    ensures
        seq![normal(items[0])] + normal_all(items.skip(1).take(k)) == normal_all(items.take(k + 1)),
{
    let a = seq![normal(items[0])] + normal_all(items.skip(1).take(k));
    let b = normal_all(items.take(k + 1));
    assert(a.len() == b.len());
    assert forall|i: int| 0 <= i < a.len() implies a[i] == b[i] by {
        if i > 0 {
            assert(items.skip(1).take(k)[i - 1] == items[i]);
        }
    }
    assert(a =~= b);
}

/// The bytes behind the first item of a stream hold the rest of it.
pub proof fn lemma_agrees_rest(s: Seq<u8>, w0: Seq<u8>, rest: Seq<u8>)
    requires
        agrees(s, 0, w0 + rest),
        s.len() >= w0.len(),
    ensures
        agrees(s.skip(w0.len() as int), 0, rest),
{
    let t = s.skip(w0.len() as int);
    lemma_agrees_split(s, 0, w0, rest);
    assert forall|i: int| 0 <= i < t.len() && i < rest.len() implies t[i] == rest[i] by {
        assert(t[i] == s[i + w0.len()]);
    }
}

/// Draining a buffer that holds a valid stream as far as it goes gives
/// the items that lie whole in it and leaves the bytes after them.
#[verifier::rlimit(40)]
pub proof fn lemma_drain_prefix(items: Seq<ItemView>, s: Seq<u8>)
    requires
        valid_stream(items),
        agrees(s, 0, wire_all(items)),
        s.len() <= wire_all(items).len(),
    ensures
        drain(s) == (Fed {
            items: normal_all(items.take(whole(items, s.len() as int))),
            rest: s.skip(taken(items, s.len() as int)),
            error: None,
        }),
    decreases items.len(),
{
    let m = s.len() as int;
    if items.len() == 0 {
        assert(s =~= Seq::<u8>::empty());
        assert(step(s) is NeedMore) by {
            reveal(step);
        }
        lemma_drain_wait(s);
        assert(s.skip(0) =~= s);
        assert(normal_all(items.take(0)) =~= Seq::empty());
    } else {
        let w0 = wire(items[0]);
        lemma_decode_first(items, s);
        assert(valid_item(items[0]));
        lemma_wire_start(items[0]);
        if w0.len() > m {
            lemma_drain_wait(s);
            assert(s.skip(0) =~= s);
            assert(normal_all(items.take(0)) =~= Seq::empty());
        } else {
            let rest = items.skip(1);
            let t = s.skip(w0.len() as int);
            lemma_valid_rest(items);
            lemma_agrees_rest(s, w0, wire_all(rest));
            lemma_drain_prefix(rest, t);
            lemma_drain_step(s, normal(items[0]), w0.len() as int);
            let k = whole(rest, t.len() as int);
            assert(t.len() == m - w0.len());
            lemma_taken(rest, m - w0.len());
            lemma_normal_front(items, k);
            assert(t.skip(taken(rest, t.len() as int)) =~= s.skip(taken(items, m)));
        }
    }
}

/// What is left of a stream behind its first `t` bytes, which hold whole
/// items: the bytes left of the buffer and the later chunks.
pub proof fn lemma_rest_of_stream(a: Seq<u8>, b: Seq<u8>, s: Seq<u8>, later: Seq<u8>)
    requires
        a + b == s + later,
        a.len() <= s.len(),
    ensures
        s.skip(a.len() as int) + later == b,
{
    let all = a + b;
    assert(all.skip(a.len() as int) =~= b);
    assert((s + later).skip(a.len() as int) =~= s.skip(a.len() as int) + later);
}

/// Feeding the wire form of a valid stream to the decoder in chunks gives
/// the items of the stream, however the chunks are cut.
#[verifier::rlimit(40)]
pub proof fn lemma_feed(
    done: Seq<ItemView>,
    items: Seq<ItemView>,
    buf: Seq<u8>,
    chunks: Seq<Seq<u8>>,
)
    requires
        valid_stream(items),
        buf + joined(chunks) == wire_all(items),
        whole(items, buf.len() as int) == 0,
    ensures
        feed(done, buf, chunks) == (Fed {
            items: done + normal_all(items),
            rest: Seq::empty(),
            error: None,
        }),
    decreases chunks.len(),
{
    if chunks.len() == 0 {
        lemma_feed_end(done, buf, chunks);
        assert(buf + joined(chunks) =~= buf);
        if items.len() > 0 {
            assert(valid_item(items[0]));
            lemma_wire_start(items[0]);
            assert(wire_all(items).len() == wire(items[0]).len() + wire_all(items.skip(1)).len());
            lemma_valid_rest(items);
            lemma_taken(items.skip(1), buf.len() - wire(items[0]).len());
            assert(whole(items, buf.len() as int) >= 1);
        }
        assert(items =~= Seq::<ItemView>::empty());
        assert(buf =~= Seq::<u8>::empty());
        assert(done + normal_all(items) =~= done);
    } else {
        let s = buf + chunks[0];
        let later = joined(chunks.skip(1));
        let all = wire_all(items);
        assert(all =~= s + later);
        assert(agrees(s, 0, all));
        lemma_drain_prefix(items, s);
        lemma_taken(items, s.len() as int);
        let k = whole(items, s.len() as int);
        let t = taken(items, s.len() as int);
        let left = items.skip(k);
        let rest = s.skip(t);
        lemma_rest_of_stream(wire_all(items.take(k)), wire_all(left), s, later);
        lemma_feed_step(done, buf, chunks);
        lemma_feed(done + normal_all(items.take(k)), left, rest, chunks.skip(1));
        assert((done + normal_all(items.take(k))) + normal_all(left) =~= done + normal_all(items)) by {
            assert(items.take(k) + left =~= items);
        }
    }
}

/// Chunk independence: for a valid stream of items, whatever way its wire
/// form is cut into chunks, feeding them one after the other yields the
/// items of the stream, in order, and leaves nothing in the buffer. So
/// feeding byte by byte, in windows of any size, or in one piece all yield
/// the same sequence.
pub proof fn lemma_chunk_independence(items: Seq<ItemView>, chunks: Seq<Seq<u8>>)
    requires
        valid_stream(items),
        joined(chunks) == wire_all(items),
    ensures
        feed(Seq::empty(), Seq::empty(), chunks) == (Fed {
            items: normal_all(items),
            rest: Seq::empty(),
            error: None,
        }),
{
    let none = Seq::<u8>::empty();
    assert(none + joined(chunks) =~= joined(chunks));
    if items.len() > 0 {
        assert(valid_item(items[0]));
        lemma_wire_start(items[0]);
    }
    lemma_feed(Seq::empty(), items, none, chunks);
    assert(Seq::<ItemView>::empty() + normal_all(items) =~= normal_all(items));
}

/// Two ways of cutting the same valid stream give the same items.
pub proof fn lemma_same_items(items: Seq<ItemView>, a: Seq<Seq<u8>>, b: Seq<Seq<u8>>)
    requires
        valid_stream(items),
        joined(a) == wire_all(items),
        joined(b) == wire_all(items),
    ensures
        feed(Seq::empty(), Seq::empty(), a) == feed(Seq::empty(), Seq::empty(), b),
{
    lemma_chunk_independence(items, a);
    lemma_chunk_independence(items, b);
}

} // verus!
