//! The mathematical model of domain names: the dotted-text encoder, the
//! decoder that follows compression pointers, and the text rendering.
use crate::error::DnsError;
use vstd::prelude::*;
use vstd::utf8::{
    decode_utf8, encode_utf8, encode_utf8_decode_utf8, encode_utf8_valid_utf8, is_ascii_chars,
    is_ascii_chars_encode_utf8, valid_utf8,
};

verus! {

/// The byte that separates labels in dotted text.
pub const DOT: u8 = 46;

/// How many compression pointers one name may follow.
pub const MAX_JUMPS: usize = 10;

/// A pending label `cur` written out: its length byte and its bytes, or nothing when empty.
pub open spec fn flush_label(cur: Seq<u8>) -> Seq<u8> {
    if cur.len() == 0 {
        Seq::empty()
    } else {
        seq![(cur.len() % 256) as u8] + cur
    }
}

/// The label encoding of the dotted text `d`, where `cur` holds the bytes of the
/// label read so far; empty labels produce nothing.
pub open spec fn encode_labels(d: Seq<u8>, cur: Seq<u8>) -> Seq<u8>
    decreases d.len(),
{
    if d.len() == 0 {
        flush_label(cur)
    } else if d[0] == DOT {
        flush_label(cur) + encode_labels(d.drop_first(), Seq::empty())
    } else {
        encode_labels(d.drop_first(), cur.push(d[0]))
    }
}

/// The wire form of the dotted text `d`: its labels, then a zero byte.
pub open spec fn encode_name(d: Seq<u8>) -> Seq<u8> {
    encode_labels(d, Seq::empty()).push(0)
}

/// Whether a length byte is a compression pointer (its two high bits set).
pub open spec fn is_pointer(b: u8) -> bool {
    b >= 0xC0
}

/// The 14-bit offset of the pointer whose bytes are `hi`, `lo`.
pub open spec fn pointer_target(hi: u8, lo: u8) -> int {
    (hi as int - 0xC0) * 256 + lo as int
}

/// Decodes the name at `pos` with `budget` pointer jumps left: the uncompressed
/// name and the number of bytes the name occupies at `pos` (a pointer counts two).
pub open spec fn name_walk(buf: Seq<u8>, pos: int, budget: nat) -> Result<(Seq<u8>, int), DnsError>
    decreases budget, buf.len() - pos,
{
    if pos < 0 || pos >= buf.len() {
        Err(DnsError::BufferTruncated)
    } else {
        let len = buf[pos];
        if len == 0 {
            Ok((seq![0u8], 1))
        } else if is_pointer(len) {
            if pos + 1 >= buf.len() {
                Err(DnsError::BufferTruncated)
            } else if budget == 0 {
                Err(DnsError::TooManyJumps)
            } else {
                match name_walk(buf, pointer_target(len, buf[pos + 1]), (budget - 1) as nat) {
                    Ok((n, _)) => Ok((n, 2)),
                    Err(e) => Err(e),
                }
            }
        } else if pos + 1 + len > buf.len() {
            Err(DnsError::BufferTruncated)
        } else {
            match name_walk(buf, pos + 1 + len, budget) {
                Ok((n, l)) => Ok((seq![len] + buf.subrange(pos + 1, pos + 1 + len) + n, 1 + len + l)),
                Err(e) => Err(e),
            }
        }
    }
}

/// Decoding the name at `start`: the uncompressed name and the bytes consumed.
pub open spec fn parse_name(buf: Seq<u8>, start: int) -> Result<(Seq<u8>, int), DnsError> {
    name_walk(buf, start, MAX_JUMPS as nat)
}

/// The dotted text of the uncompressed name `n` read from index `i` on, after the
/// text `acc` already produced; every label must be valid UTF-8 and fit in `n`.
pub open spec fn text_from(n: Seq<u8>, i: int, acc: Seq<char>) -> Result<Seq<char>, DnsError>
    decreases n.len() - i,
{
    if i < 0 || i >= n.len() || n[i] == 0 {
        Ok(acc)
    } else {
        let len = n[i] as int;
        let acc1 = if acc.len() == 0 {
            acc
        } else {
            acc.push('.')
        };
        if i + 1 + len > n.len() {
            Err(DnsError::InvalidName)
        } else {
            let label = n.subrange(i + 1, i + 1 + len);
            if valid_utf8(label) {
                text_from(n, i + 1 + len, acc1 + decode_utf8(label))
            } else {
                Err(DnsError::InvalidName)
            }
        }
    }
}

/// The dotted text of the uncompressed name `n`.
pub open spec fn name_text(n: Seq<u8>) -> Result<Seq<char>, DnsError> {
    text_from(n, 0, Seq::empty())
}

/// A decoded name lies within the buffer: it ends no later than the buffer does.
pub proof fn lemma_walk_extent(buf: Seq<u8>, pos: int, budget: nat)
    ensures
        name_walk(buf, pos, budget) matches Ok((n, l)) ==> 1 <= l && pos + l <= buf.len(),
    decreases budget, buf.len() - pos,
{
    if 0 <= pos < buf.len() {
        let len = buf[pos];
        if len != 0 && !is_pointer(len) && pos + 1 + len <= buf.len() {
            lemma_walk_extent(buf, pos + 1 + len, budget);
        }
    }
}

/// A well-formed uncompressed name: labels of 1 to 63 bytes, each after its
/// length byte, ended by a zero byte, with no compression pointer.
pub open spec fn plain_name(n: Seq<u8>) -> bool
    decreases n.len(),
{
    if n.len() == 0 {
        false
    } else if n[0] == 0 {
        n.len() == 1
    } else {
        n[0] < 64 && 1 + n[0] < n.len() && plain_name(n.subrange(1 + n[0] as int, n.len() as int))
    }
}

/// `s` stands in `buf` at position `p`.
pub open spec fn occurs_at(buf: Seq<u8>, p: int, s: Seq<u8>) -> bool {
    0 <= p && p + s.len() <= buf.len() && buf.subrange(p, p + s.len()) == s
}

/// Where `a + b` stands, `a` stands, and `b` right after it.
pub proof fn lemma_occurs_split(buf: Seq<u8>, p: int, a: Seq<u8>, b: Seq<u8>)
    requires
        occurs_at(buf, p, a + b),
    ensures
        occurs_at(buf, p, a),
        occurs_at(buf, p + a.len(), b),
{
    let w = buf.subrange(p, p + a.len() + b.len());
    assert(w == a + b);
    assert(buf.subrange(p, p + a.len()) =~= w.subrange(0, a.len() as int));
    assert(w.subrange(0, a.len() as int) =~= a);
    assert(buf.subrange(p + a.len(), p + a.len() + b.len()) =~= w.subrange(
        a.len() as int,
        w.len() as int,
    ));
    assert(w.subrange(a.len() as int, w.len() as int) =~= b);
}

/// An uncompressed name decodes to itself and occupies its own length,
/// whatever the jump budget and whatever surrounds it.
pub proof fn lemma_plain_name_decodes(buf: Seq<u8>, p: int, n: Seq<u8>, budget: nat)
    requires
        plain_name(n),
        occurs_at(buf, p, n),
    ensures
        name_walk(buf, p, budget) == Ok::<(Seq<u8>, int), DnsError>((n, n.len() as int)),
    decreases n.len(),
{
    assert(buf[p] == n[0]) by {
        assert(buf.subrange(p, p + n.len())[0] == buf[p]);
    }
    if n[0] == 0 {
        assert(n =~= seq![0u8]);
    } else {
        let len = n[0] as int;
        let rest = n.subrange(1 + len, n.len() as int);
        assert(n =~= (seq![n[0]] + n.subrange(1, 1 + len)) + rest);
        lemma_occurs_split(buf, p, seq![n[0]] + n.subrange(1, 1 + len), rest);
        lemma_occurs_split(buf, p, seq![n[0]], n.subrange(1, 1 + len));
        lemma_plain_name_decodes(buf, p + 1 + len, rest, budget);
    }
}

/// More jump budget does not change a name that already decodes.
pub proof fn lemma_walk_budget(buf: Seq<u8>, pos: int, budget: nat)
    requires
        name_walk(buf, pos, budget) is Ok,
    ensures
        name_walk(buf, pos, budget + 1) == name_walk(buf, pos, budget),
    decreases budget, buf.len() - pos,
{
    let len = buf[pos];
    if len != 0 {
        if is_pointer(len) {
            lemma_walk_budget(buf, pointer_target(len, buf[pos + 1]), (budget - 1) as nat);
        } else {
            lemma_walk_budget(buf, pos + 1 + len, budget);
        }
    }
}

/// A name that is a compression pointer decodes to the same bytes as the name
/// it points at, and occupies two bytes; this holds whenever the name pointed
/// at decodes within the jumps that the pointer leaves.
pub proof fn lemma_pointer_name(buf: Seq<u8>, start: int)
    requires
        0 <= start,
        start + 1 < buf.len(),
        is_pointer(buf[start]),
        name_walk(buf, pointer_target(buf[start], buf[start + 1]), (MAX_JUMPS - 1) as nat) is Ok,
    ensures
        parse_name(buf, start) is Ok,
        parse_name(buf, pointer_target(buf[start], buf[start + 1])) is Ok,
        (parse_name(buf, start)->Ok_0).1 == 2,
        (parse_name(buf, start)->Ok_0).0 == (parse_name(
            buf,
            pointer_target(buf[start], buf[start + 1]),
        )->Ok_0).0,
{
    let t = pointer_target(buf[start], buf[start + 1]);
    lemma_walk_budget(buf, t, (MAX_JUMPS - 1) as nat);
}

/// Whether the dotted text `d` (after a pending label of `n` bytes) is made of
/// labels of 1 to 63 bytes separated by single dots, with no dot at either end.
pub open spec fn dotted_from(d: Seq<u8>, n: nat) -> bool
    decreases d.len(),
{
    if d.len() == 0 {
        1 <= n <= 63
    } else if d[0] == DOT {
        1 <= n <= 63 && dotted_from(d.drop_first(), 0)
    } else {
        dotted_from(d.drop_first(), n + 1)
    }
}

/// Whether the text `s` is a non-empty dotted domain name whose labels have 1 to 63 bytes.
pub open spec fn dotted_name(s: Seq<char>) -> bool {
    dotted_from(encode_utf8(s), 0)
}

/// The text after `acc` when a further label follows: a dot, unless `acc` is empty.
pub open spec fn with_separator(acc: Seq<char>) -> Seq<char> {
    if acc.len() == 0 {
        acc
    } else {
        acc.push('.')
    }
}

/// Rendering a name that stands after `a` gives what rendering it alone gives.
proof fn lemma_text_shift(a: Seq<u8>, y: Seq<u8>, j: int, acc: Seq<char>)
    requires
        0 <= j,
    ensures
        text_from(a + y, a.len() + j, acc) == text_from(y, j, acc),
    decreases y.len() - j,
{
    let n = a + y;
    let i = a.len() + j;
    if j < y.len() {
        assert(n[i] == y[j]);
        let len = y[j] as int;
        if y[j] != 0 && j + 1 + len <= y.len() {
            assert(n.subrange(i + 1, i + 1 + len) =~= y.subrange(j + 1, j + 1 + len));
            let acc1 = with_separator(acc);
            let label = y.subrange(j + 1, j + 1 + len);
            lemma_text_shift(a, y, j + 1 + len, acc1 + decode_utf8(label));
        }
    }
}

/// The bytes of a piece of ASCII text are the UTF-8 encoding of that piece.
proof fn lemma_ascii_piece(s: Seq<char>, i: int, j: int)
    requires
        is_ascii_chars(s),
        0 <= i <= j <= s.len(),
    ensures
        encode_utf8(s).subrange(i, j) == encode_utf8(s.subrange(i, j)),
        encode_utf8(s).len() == s.len(),
{
    let p = s.subrange(i, j);
    is_ascii_chars_encode_utf8(s);
    assert(is_ascii_chars(p));
    is_ascii_chars_encode_utf8(p);
    assert(encode_utf8(s).subrange(i, j) =~= encode_utf8(p));
}

/// A byte of ASCII text is the character's code; a dot byte is a dot.
proof fn lemma_ascii_byte(s: Seq<char>, i: int)
    requires
        is_ascii_chars(s),
        0 <= i < s.len(),
    ensures
        encode_utf8(s)[i] == s[i] as u8,
        encode_utf8(s)[i] == DOT ==> s[i] == '.',
{
    is_ascii_chars_encode_utf8(s);
}

/// Rendering a name that starts with the label `cs`: the label's text is
/// produced and rendering goes on after it.
proof fn lemma_label_step(cs: Seq<char>, rest: Seq<u8>, acc: Seq<char>)
    requires
        1 <= encode_utf8(cs).len() <= 63,
    ensures
        text_from(flush_label(encode_utf8(cs)) + rest, 0, acc) == text_from(
            rest,
            0,
            with_separator(acc) + cs,
        ),
{
    let cur = encode_utf8(cs);
    let l = (cur.len() % 256) as u8;
    let head = seq![l] + cur;
    let e = head + rest;
    encode_utf8_valid_utf8(cs);
    encode_utf8_decode_utf8(cs);
    assert(e[0] == l);
    assert(e.subrange(1, 1 + l as int) =~= cur);
    assert(text_from(e, 0, acc) == text_from(e, 1 + l as int, with_separator(acc) + cs));
    lemma_text_shift(head, rest, 0, with_separator(acc) + cs);
}

/// Rendering the encoding of ASCII dotted text from position `i`, with the label
/// begun at `st` pending and `acc` already produced, gives the rest of the text.
proof fn lemma_encode_text_from(s: Seq<char>, st: int, i: int, acc: Seq<char>)
    requires
        is_ascii_chars(s),
        0 <= st <= i <= s.len(),
        dotted_from(encode_utf8(s).subrange(i, s.len() as int), (i - st) as nat),
    ensures
        text_from(
            encode_labels(
                encode_utf8(s).subrange(i, s.len() as int),
                encode_utf8(s).subrange(st, i),
            ).push(0),
            0,
            acc,
        ) == Ok::<Seq<char>, DnsError>(with_separator(acc) + s.subrange(st, s.len() as int)),
    decreases s.len() - i,
{
    let b = encode_utf8(s);
    let len = s.len() as int;
    lemma_ascii_piece(s, st, i);
    let d = b.subrange(i, len);
    let cur = b.subrange(st, i);
    let cs = s.subrange(st, i);
    let sep = with_separator(acc);
    if i == len {
        assert(d.len() == 0);
        assert(encode_labels(d, cur).push(0) =~= flush_label(cur) + seq![0u8]);
        lemma_label_step(cs, seq![0u8], acc);
        assert(text_from(seq![0u8], 0, sep + cs) == Ok::<Seq<char>, DnsError>(sep + cs));
    } else {
        lemma_ascii_byte(s, i);
        assert(d[0] == b[i]);
        assert(d.drop_first() =~= b.subrange(i + 1, len));
        if b[i] == DOT {
            let r = encode_labels(b.subrange(i + 1, len), Seq::empty());
            assert(encode_labels(d, cur) == flush_label(cur) + r);
            assert(encode_labels(d, cur).push(0) =~= flush_label(cur) + r.push(0));
            lemma_label_step(cs, r.push(0), acc);
            assert(b.subrange(i + 1, i + 1) =~= Seq::<u8>::empty());
            lemma_encode_text_from(s, i + 1, i + 1, sep + cs);
            assert(with_separator(sep + cs) + s.subrange(i + 1, len) =~= sep + s.subrange(st, len));
        } else {
            assert(cur.push(b[i]) =~= b.subrange(st, i + 1));
            assert(encode_labels(d, cur) == encode_labels(b.subrange(i + 1, len), b.subrange(st, i + 1)));
            lemma_encode_text_from(s, st, i + 1, acc);
        }
    }
}

/// Encoding ASCII dotted text whose labels have 1 to 63 bytes, then rendering
/// the encoded name as text, gives the text back.
pub proof fn lemma_encode_then_text(s: Seq<char>)
    requires
        is_ascii_chars(s),
        dotted_name(s),
    ensures
        name_text(encode_name(encode_utf8(s))) == Ok::<Seq<char>, DnsError>(s),
{
    lemma_ascii_piece(s, 0, s.len() as int);
    let b = encode_utf8(s);
    assert(b.subrange(0, s.len() as int) =~= b);
    assert(b.subrange(0, 0) =~= Seq::<u8>::empty());
    assert(s.subrange(0, s.len() as int) =~= s);
    lemma_encode_text_from(s, 0, 0, Seq::empty());
}

} // verus!
