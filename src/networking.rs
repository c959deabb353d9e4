use vstd::bytes::{
    lemma_auto_spec_u32_to_from_le_bytes, lemma_auto_spec_u64_to_from_le_bytes,
    spec_u32_from_le_bytes, spec_u32_to_le_bytes, spec_u64_from_le_bytes, spec_u64_to_le_bytes,
    u32_from_le_bytes, u32_to_le_bytes, u64_from_le_bytes, u64_to_le_bytes,
};
use vstd::prelude::*;
use vstd::slice::slice_subrange;
use vstd::string::{StringExecFns, StringSliceAdditionalSpecFns};
use vstd::utf8::{decode_utf8, encode_utf8, valid_utf8};

pub mod client;
pub mod server;

verus! {

broadcast use vstd::utf8::group_utf8_lib;

/// Game messages that are sent between the client and server.
#[derive(Debug, PartialEq, Eq)]
pub enum GameMessage {
    /// Sent by the server to tell a player that a specific card was drawn.
    DrawCard(String),
    /// Sent by a client to say that a specific card was played.
    PlayCard(String),
    /// Sent by the server to tell clients to clear their hand.
    ClearHand,
    /// Sent by the server to tell clients to clear the discard pile.
    ClearDiscardPile,
    /// Sent by the server to list the cards that may be played.
    CanPlayCards(Vec<String>),
}

/// The mathematical value of a `GameMessage`: card names as character
/// sequences.
pub enum MessageView {
    DrawCard(Seq<char>),
    PlayCard(Seq<char>),
    ClearHand,
    ClearDiscardPile,
    CanPlayCards(Seq<Seq<char>>),
}

/// The character sequences of a list of strings.
pub open spec fn texts_view(v: Seq<String>) -> Seq<Seq<char>> {
    v.map_values(|s: String| s@)
}

impl View for GameMessage {
    type V = MessageView;

    open spec fn view(&self) -> MessageView {
        match self {
            GameMessage::DrawCard(s) => MessageView::DrawCard(s@),
            GameMessage::PlayCard(s) => MessageView::PlayCard(s@),
            GameMessage::ClearHand => MessageView::ClearHand,
            GameMessage::ClearDiscardPile => MessageView::ClearDiscardPile,
            GameMessage::CanPlayCards(v) => MessageView::CanPlayCards(texts_view(v@)),
        }
    }
}

// ---------------------------------------------------------------------------
// Wire format
//
// A message is a little-endian `u32` variant tag (0 to 4, in declaration
// order) followed by its payload. A card name is a little-endian `u64` byte
// count followed by its UTF-8 bytes; a list of names is a little-endian `u64`
// item count followed by each name. A message occupies the whole buffer.
// ---------------------------------------------------------------------------

/// The encoding of one card name.
pub open spec fn encode_text(s: Seq<char>) -> Seq<u8> {
    spec_u64_to_le_bytes(encode_utf8(s).len() as u64) + encode_utf8(s)
}

/// The encodings of a list of card names, one after another.
pub open spec fn encode_texts(l: Seq<Seq<char>>) -> Seq<u8>
    decreases l.len(),
{
    if l.len() == 0 {
        Seq::empty()
    } else {
        encode_text(l[0]) + encode_texts(l.drop_first())
    }
}

/// The bytes that encode a message.
pub open spec fn spec_encode(m: MessageView) -> Seq<u8> {
    match m {
        MessageView::DrawCard(s) => spec_u32_to_le_bytes(0) + encode_text(s),
        MessageView::PlayCard(s) => spec_u32_to_le_bytes(1) + encode_text(s),
        MessageView::ClearHand => spec_u32_to_le_bytes(2),
        MessageView::ClearDiscardPile => spec_u32_to_le_bytes(3),
        MessageView::CanPlayCards(l) => spec_u32_to_le_bytes(4) + spec_u64_to_le_bytes(
            l.len() as u64,
        ) + encode_texts(l),
    }
}

/// Every length in the message can be written as a `u64`, as is the case
/// for every message held in memory.
pub open spec fn fits_wire(m: MessageView) -> bool {
    match m {
        MessageView::DrawCard(s) => encode_utf8(s).len() <= u64::MAX,
        MessageView::PlayCard(s) => encode_utf8(s).len() <= u64::MAX,
        MessageView::CanPlayCards(l) => l.len() <= u64::MAX && forall|i: int|
            0 <= i < l.len() ==> encode_utf8(#[trigger] l[i]).len() <= u64::MAX,
        _ => true,
    }
}

/// The `u64` stored at `pos`, if eight bytes are there.
pub open spec fn read_u64(b: Seq<u8>, pos: int) -> Option<u64> {
    if 0 <= pos && pos + 8 <= b.len() {
        Some(spec_u64_from_le_bytes(b.subrange(pos, pos + 8)))
    } else {
        None
    }
}

/// The card name stored at `pos` and the position after it, if its length
/// prefix and valid UTF-8 bytes are there.
pub open spec fn read_text(b: Seq<u8>, pos: int) -> Option<(Seq<char>, int)> {
    match read_u64(b, pos) {
        Some(n) => {
            let end = pos + 8 + n;
            if end <= b.len() && valid_utf8(b.subrange(pos + 8, end)) {
                Some((decode_utf8(b.subrange(pos + 8, end)), end))
            } else {
                None
            }
        },
        None => None,
    }
}

/// `count` card names stored one after another from `pos`, and the position
/// after the last one.
pub open spec fn read_texts(b: Seq<u8>, pos: int, count: nat) -> Option<(Seq<Seq<char>>, int)>
    decreases count,
{
    if count == 0 {
        Some((Seq::empty(), pos))
    } else {
        match read_text(b, pos) {
            Some((s, p)) => match read_texts(b, p, (count - 1) as nat) {
                Some((rest, q)) => Some((seq![s] + rest, q)),
                None => None,
            },
            None => None,
        }
    }
}

/// The message that a buffer holds, if it holds exactly one.
pub open spec fn spec_decode(b: Seq<u8>) -> Option<MessageView> {
    if b.len() < 4 {
        None
    } else {
        let tag = spec_u32_from_le_bytes(b.subrange(0, 4));
        if tag == 0 || tag == 1 {
            match read_text(b, 4) {
                Some((s, p)) => if p == b.len() {
                    if tag == 0 {
                        Some(MessageView::DrawCard(s))
                    } else {
                        Some(MessageView::PlayCard(s))
                    }
                } else {
                    None
                },
                None => None,
            }
        } else if tag == 2 || tag == 3 {
            if b.len() == 4 {
                if tag == 2 {
                    Some(MessageView::ClearHand)
                } else {
                    Some(MessageView::ClearDiscardPile)
                }
            } else {
                None
            }
        } else if tag == 4 {
            match read_u64(b, 4) {
                Some(n) => match read_texts(b, 12, n as nat) {
                    Some((l, p)) => if p == b.len() {
                        Some(MessageView::CanPlayCards(l))
                    } else {
                        None
                    },
                    None => None,
                },
                None => None,
            }
        } else {
            None
        }
    }
}

/// A name encoded between any two byte sequences is read back whole.
proof fn lemma_read_encoded_text(pre: Seq<u8>, s: Seq<char>, post: Seq<u8>)
    requires
        encode_utf8(s).len() <= u64::MAX,
    ensures
        read_text(pre + encode_text(s) + post, pre.len() as int) == Some(
            (s, (pre.len() + encode_text(s).len()) as int),
        ),
{
    lemma_auto_spec_u64_to_from_le_bytes();
    let b = pre + encode_text(s) + post;
    let n = encode_utf8(s).len() as u64;
    let pos = pre.len() as int;
    assert(b.subrange(pos, pos + 8) =~= spec_u64_to_le_bytes(n));
    assert(b.subrange(pos + 8, pos + 8 + n) =~= encode_utf8(s));
}

/// A list of names encoded between any two byte sequences is read back whole.
proof fn lemma_read_encoded_texts(pre: Seq<u8>, l: Seq<Seq<char>>, post: Seq<u8>)
    requires
        forall|i: int| 0 <= i < l.len() ==> encode_utf8(#[trigger] l[i]).len() <= u64::MAX,
    ensures
        read_texts(pre + encode_texts(l) + post, pre.len() as int, l.len()) == Some(
            (l, (pre.len() + encode_texts(l).len()) as int),
        ),
    decreases l.len(),
{
    if l.len() > 0 {
        let head = encode_text(l[0]);
        let rest = l.drop_first();
        assert(pre + encode_texts(l) + post =~= pre + head + (encode_texts(rest) + post));
        lemma_read_encoded_text(pre, l[0], encode_texts(rest) + post);
        assert(pre + encode_texts(l) + post =~= (pre + head) + encode_texts(rest) + post);
        assert forall|i: int| 0 <= i < rest.len() implies encode_utf8(#[trigger] rest[i]).len()
            <= u64::MAX by {
            assert(rest[i] == l[i + 1]);
        }
        lemma_read_encoded_texts(pre + head, rest, post);
        assert(seq![l[0]] + rest =~= l);
    }
}

/// Decoding the encoding of a message gives the message back.
pub proof fn lemma_decode_encode(m: MessageView)
    requires
        fits_wire(m),
    ensures
        spec_decode(spec_encode(m)) == Some(m),
{
    lemma_auto_spec_u32_to_from_le_bytes();
    lemma_auto_spec_u64_to_from_le_bytes();
    let b = spec_encode(m);
    let empty = Seq::<u8>::empty();
    match m {
        MessageView::DrawCard(s) => {
            assert(b.subrange(0, 4) =~= spec_u32_to_le_bytes(0));
            lemma_read_encoded_text(spec_u32_to_le_bytes(0), s, empty);
            assert(spec_u32_to_le_bytes(0) + encode_text(s) + empty =~= b);
        },
        MessageView::PlayCard(s) => {
            assert(b.subrange(0, 4) =~= spec_u32_to_le_bytes(1));
            lemma_read_encoded_text(spec_u32_to_le_bytes(1), s, empty);
            assert(spec_u32_to_le_bytes(1) + encode_text(s) + empty =~= b);
        },
        MessageView::ClearHand => {
            assert(b.subrange(0, 4) =~= spec_u32_to_le_bytes(2));
        },
        MessageView::ClearDiscardPile => {
            assert(b.subrange(0, 4) =~= spec_u32_to_le_bytes(3));
        },
        MessageView::CanPlayCards(l) => {
            let pre = spec_u32_to_le_bytes(4) + spec_u64_to_le_bytes(l.len() as u64);
            assert(b.subrange(0, 4) =~= spec_u32_to_le_bytes(4));
            assert(b.subrange(4, 12) =~= spec_u64_to_le_bytes(l.len() as u64));
            lemma_read_encoded_texts(pre, l, empty);
            assert(pre + encode_texts(l) + empty =~= b);
        },
    }
}

/// A name read from a buffer is stored there in its encoding.
proof fn lemma_text_read_is_encoded(b: Seq<u8>, pos: int, s: Seq<char>, p: int)
    requires
        read_text(b, pos) == Some((s, p)),
    ensures
        pos + 8 <= p <= b.len(),
        b.subrange(pos, p) == encode_text(s),
        encode_utf8(s).len() <= u64::MAX,
{
    lemma_auto_spec_u64_to_from_le_bytes();
    let prefix = b.subrange(pos, pos + 8);
    let body = b.subrange(pos + 8, p);
    assert(encode_utf8(s) == body);
    assert(spec_u64_to_le_bytes(spec_u64_from_le_bytes(prefix)) == prefix);
    assert(b.subrange(pos, p) =~= prefix + body);
}

/// A list of names read from a buffer is stored there in its encoding.
proof fn lemma_texts_read_are_encoded(
    b: Seq<u8>,
    pos: int,
    count: nat,
    l: Seq<Seq<char>>,
    p: int,
)
    requires
        0 <= pos <= b.len(),
        read_texts(b, pos, count) == Some((l, p)),
    ensures
        pos <= p <= b.len(),
        l.len() == count,
        b.subrange(pos, p) == encode_texts(l),
        forall|i: int| 0 <= i < l.len() ==> encode_utf8(#[trigger] l[i]).len() <= u64::MAX,
    decreases count,
{
    if count == 0 {
        assert(b.subrange(pos, p) =~= Seq::<u8>::empty());
    } else {
        let (s, mid) = read_text(b, pos)->0;
        let (rest, q) = read_texts(b, mid, (count - 1) as nat)->0;
        lemma_text_read_is_encoded(b, pos, s, mid);
        lemma_texts_read_are_encoded(b, mid, (count - 1) as nat, rest, q);
        assert(l == seq![s] + rest);
        assert(l.drop_first() =~= rest);
        assert(b.subrange(pos, p) =~= b.subrange(pos, mid) + b.subrange(mid, p));
        assert forall|i: int| 0 <= i < l.len() implies encode_utf8(#[trigger] l[i]).len()
            <= u64::MAX by {
            if i > 0 {
                assert(l[i] == rest[i - 1]);
            }
        }
    }
}

/// A buffer decodes to a message only if it is that message's encoding, so
/// that decoding and encoding are inverse to each other.
pub proof fn lemma_encode_decode(b: Seq<u8>, m: MessageView)
    requires
        spec_decode(b) == Some(m),
    ensures
        spec_encode(m) == b,
        fits_wire(m),
{
    lemma_auto_spec_u32_to_from_le_bytes();
    lemma_auto_spec_u64_to_from_le_bytes();
    let tag_bytes = b.subrange(0, 4);
    let tag = spec_u32_from_le_bytes(tag_bytes);
    assert(spec_u32_to_le_bytes(tag) == tag_bytes);
    if tag == 0 || tag == 1 {
        let (s, p) = read_text(b, 4)->0;
        lemma_text_read_is_encoded(b, 4, s, p);
        assert(b =~= tag_bytes + b.subrange(4, p));
    } else if tag == 2 || tag == 3 {
        assert(b =~= tag_bytes);
    } else {
        let n = read_u64(b, 4)->0;
        let (l, p) = read_texts(b, 12, n as nat)->0;
        lemma_texts_read_are_encoded(b, 12, n as nat, l, p);
        assert(spec_u64_to_le_bytes(n) == b.subrange(4, 12));
        assert(b =~= tag_bytes + b.subrange(4, 12) + b.subrange(12, p));
    }
}

/// Appending one name to a list appends its encoding.
proof fn lemma_encode_texts_push(l: Seq<Seq<char>>, x: Seq<char>)
    ensures
        encode_texts(l.push(x)) == encode_texts(l) + encode_text(x),
    decreases l.len(),
{
    if l.len() == 0 {
        assert(l.push(x).drop_first() =~= Seq::<Seq<char>>::empty());
        assert(l.push(x)[0] == x);
        assert(encode_texts(l.push(x).drop_first()) == Seq::<u8>::empty());
        assert(encode_text(x) + Seq::<u8>::empty() =~= encode_text(x));
        assert(Seq::<u8>::empty() + encode_text(x) =~= encode_text(x));
    } else {
        assert(l.push(x).drop_first() =~= l.drop_first().push(x));
        assert(l.push(x)[0] == l[0]);
        lemma_encode_texts_push(l.drop_first(), x);
        assert(encode_text(l[0]) + (encode_texts(l.drop_first()) + encode_text(x)) =~= (
        encode_text(l[0]) + encode_texts(l.drop_first())) + encode_text(x));
    }
}

/// Appends `b` to `out`.
fn push_bytes(out: &mut Vec<u8>, b: &[u8])
    ensures
        final(out)@ == old(out)@ + b@,
{
    let ghost start = out@;
    for i in 0..b.len()
        invariant
            out@ == start + b@.subrange(0, i as int),
    {
        out.push(b[i]);
        assert(b@.subrange(0, i + 1) =~= b@.subrange(0, i as int).push(b@[i as int]));
    }
    assert(b@.subrange(0, b@.len() as int) =~= b@);
}

/// Appends the encoding of one card name to `out`.
fn push_text(out: &mut Vec<u8>, s: &String)
    ensures
        final(out)@ == old(out)@ + encode_text(s@),
        encode_utf8(s@).len() <= u64::MAX,
{
    let b = s.as_str().as_bytes();
    let n: usize = b.len();
    let len_bytes = u64_to_le_bytes(n as u64);
    push_bytes(out, len_bytes.as_slice());
    push_bytes(out, b);
    assert(final(out)@ =~= old(out)@ + encode_text(s@));
}

/// Encodes a message into its wire bytes.
pub fn encode(m: &GameMessage) -> (bytes: Vec<u8>)
    ensures
        bytes@ == spec_encode(m@),
        fits_wire(m@),
{
    match m {
        GameMessage::DrawCard(s) => {
            let mut out = u32_to_le_bytes(0);
            push_text(&mut out, s);
            out
        },
        GameMessage::PlayCard(s) => {
            let mut out = u32_to_le_bytes(1);
            push_text(&mut out, s);
            out
        },
        GameMessage::ClearHand => u32_to_le_bytes(2),
        GameMessage::ClearDiscardPile => u32_to_le_bytes(3),
        GameMessage::CanPlayCards(v) => {
            let mut out = u32_to_le_bytes(4);
            let count = u64_to_le_bytes(v.len() as u64);
            push_bytes(&mut out, count.as_slice());
            let ghost pre = out@;
            let ghost l = texts_view(v@);
            for i in 0..v.len()
                invariant
                    l == texts_view(v@),
                    out@ == pre + encode_texts(l.take(i as int)),
                    forall|j: int| 0 <= j < i ==> encode_utf8(#[trigger] l[j]).len() <= u64::MAX,
            {
                push_text(&mut out, &v[i]);
                proof {
                    assert(l.take(i + 1) =~= l.take(i as int).push(l[i as int]));
                    lemma_encode_texts_push(l.take(i as int), l[i as int]);
                }
            }
            assert(l.take(v.len() as int) =~= l);
            out
        },
    }
}

/// Relies on `std::str::from_utf8`: it accepts exactly the byte sequences
/// that are valid UTF-8, and the string it returns borrows those bytes
/// unchanged.
#[verifier::external_body]
fn utf8_text<'a>(b: &'a [u8]) -> (r: Option<&'a str>)
    ensures
        r is Some <==> valid_utf8(b@),
        r is Some ==> r->0.spec_bytes() == b@,
{
    std::str::from_utf8(b).ok()
}

/// Reads the `u64` stored at `pos`.
fn read_u64_at(b: &[u8], pos: usize) -> (r: Option<u64>)
    ensures
        r == read_u64(b@, pos as int),
{
    if pos <= b.len() && b.len() - pos >= 8 {
        Some(u64_from_le_bytes(slice_subrange(b, pos, pos + 8)))
    } else {
        None
    }
}

/// Reads the card name stored at `pos`.
fn read_text_at(b: &[u8], pos: usize) -> (r: Option<(String, usize)>)
    ensures
        match r {
            Some((s, p)) => read_text(b@, pos as int) == Some((s@, p as int)),
            None => read_text(b@, pos as int) is None,
        },
{
    match read_u64_at(b, pos) {
        Some(n) => {
            let avail: usize = b.len() - pos - 8;
            if n > avail as u64 {
                return None;
            }
            let end: usize = pos + 8 + n as usize;
            match utf8_text(slice_subrange(b, pos + 8, end)) {
                Some(t) => Some((String::from_str(t), end)),
                None => None,
            }
        },
        None => None,
    }
}

/// Reads `count` card names stored one after another from `pos`.
fn read_texts_at(b: &[u8], pos: usize, count: u64) -> (r: Option<(Vec<String>, usize)>)
    ensures
        match r {
            Some((v, p)) => read_texts(b@, pos as int, count as nat) == Some(
                (texts_view(v@), p as int),
            ),
            None => read_texts(b@, pos as int, count as nat) is None,
        },
{
    let mut v: Vec<String> = Vec::new();
    let mut p: usize = pos;
    let mut i: u64 = 0;
    while i < count
        invariant
            i <= count,
            read_texts(b@, pos as int, count as nat) == match read_texts(
                b@,
                p as int,
                (count - i) as nat,
            ) {
                Some((rest, q)) => Some((texts_view(v@) + rest, q)),
                None => None,
            },
        decreases count - i,
    {
        match read_text_at(b, p) {
            Some((s, next)) => {
                let ghost before = texts_view(v@);
                v.push(s);
                proof {
                    assert(texts_view(v@) =~= before.push(s@));
                    let tail = read_texts(b@, next as int, (count - i - 1) as nat);
                    if let Some((rest, q)) = tail {
                        assert(before + (seq![s@] + rest) =~= before.push(s@) + rest);
                    }
                }
                p = next;
                i = i + 1;
            },
            None => {
                return None;
            },
        }
    }
    assert(texts_view(v@) + Seq::<Seq<char>>::empty() =~= texts_view(v@));
    Some((v, p))
}

/// Decodes a buffer that holds exactly one message.
pub fn decode(b: &[u8]) -> (r: Option<GameMessage>)
    ensures
        match r {
            Some(m) => spec_decode(b@) == Some(m@),
            None => spec_decode(b@) is None,
        },
{
    if b.len() < 4 {
        return None;
    }
    let tag = u32_from_le_bytes(slice_subrange(b, 0, 4));
    if tag == 0 || tag == 1 {
        match read_text_at(b, 4) {
            Some((s, p)) => if p == b.len() {
                if tag == 0 {
                    Some(GameMessage::DrawCard(s))
                } else {
                    Some(GameMessage::PlayCard(s))
                }
            } else {
                None
            },
            None => None,
        }
    } else if tag == 2 || tag == 3 {
        if b.len() == 4 {
            if tag == 2 {
                Some(GameMessage::ClearHand)
            } else {
                Some(GameMessage::ClearDiscardPile)
            }
        } else {
            None
        }
    } else if tag == 4 {
        match read_u64_at(b, 4) {
            Some(n) => match read_texts_at(b, 12, n) {
                Some((v, p)) => if p == b.len() {
                    Some(GameMessage::CanPlayCards(v))
                } else {
                    None
                },
                None => None,
            },
            None => None,
        }
    } else {
        None
    }
}

} // verus!
