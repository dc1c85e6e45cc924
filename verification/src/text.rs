//! Strings as byte sequences: equality, the lexicographic order on UTF-8 bytes,
//! cutting at a separator byte, and hexadecimal text.
//!
//! Keys and values are Rust strings. Their identity, their order and every digest
//! taken of them are functions of their UTF-8 bytes, so the specifications here
//! speak of `encode_utf8(s@)`.

use vstd::prelude::*;
use vstd::string::*;
use vstd::utf8::*;

verus! {

/// How one key stands relative to another in the total order on keys.
#[derive(Clone, Copy, Debug, PartialEq, Eq, Structural)]
pub enum KeyOrder {
    Before,
    Same,
    After,
}

/// Strict lexicographic order on byte sequences: the first differing byte decides,
/// and a proper prefix comes before the longer sequence.
pub open spec fn lex_lt(a: Seq<u8>, b: Seq<u8>) -> bool
    decreases a.len(),
{
    if b.len() == 0 {
        false
    } else if a.len() == 0 {
        true
    } else if a[0] != b[0] {
        a[0] < b[0]
    } else {
        lex_lt(a.drop_first(), b.drop_first())
    }
}

/// The order on keys: lexicographic on their UTF-8 bytes.
pub open spec fn key_lt(a: Seq<char>, b: Seq<char>) -> bool {
    lex_lt(encode_utf8(a), encode_utf8(b))
}

/// `a <= b` in the order on keys.
pub open spec fn key_le(a: Seq<char>, b: Seq<char>) -> bool {
    a == b || key_lt(a, b)
}

/// No byte sequence comes before itself.
pub proof fn lemma_lex_irreflexive(a: Seq<u8>)
    ensures
        !lex_lt(a, a),
    decreases a.len(),
{
    if a.len() > 0 {
        lemma_lex_irreflexive(a.drop_first());
    }
}

/// The lexicographic order is transitive.
pub proof fn lemma_lex_transitive(a: Seq<u8>, b: Seq<u8>, c: Seq<u8>)
    requires
        lex_lt(a, b),
        lex_lt(b, c),
    ensures
        lex_lt(a, c),
    decreases a.len(),
{
    if a.len() > 0 && a[0] == b[0] && b[0] == c[0] {
        lemma_lex_transitive(a.drop_first(), b.drop_first(), c.drop_first());
    }
}

/// Of two byte sequences exactly one of three holds: they are equal, the first
/// comes before the second, or the second before the first.
pub proof fn lemma_lex_trichotomy(a: Seq<u8>, b: Seq<u8>)
    ensures
        a == b || lex_lt(a, b) || lex_lt(b, a),
        !(lex_lt(a, b) && lex_lt(b, a)),
        a == b ==> !lex_lt(a, b),
    decreases a.len(),
{
    if a.len() == 0 || b.len() == 0 {
        if a.len() == 0 && b.len() == 0 {
            assert(a =~= b);
        }
    } else if a[0] == b[0] {
        lemma_lex_trichotomy(a.drop_first(), b.drop_first());
        if a.drop_first() == b.drop_first() {
            assert(a =~= seq![a[0]] + a.drop_first());
            assert(b =~= seq![b[0]] + b.drop_first());
        }
    }
    if a == b {
        lemma_lex_irreflexive(a);
    }
}

/// Two strings with the same UTF-8 bytes are the same string.
pub proof fn lemma_utf8_injective(a: Seq<char>, b: Seq<char>)
    requires
        encode_utf8(a) == encode_utf8(b),
    ensures
        a == b,
{
    encode_utf8_decode_utf8(a);
    encode_utf8_decode_utf8(b);
}

/// The order on keys is a strict total order.
pub proof fn lemma_key_order_total(a: Seq<char>, b: Seq<char>)
    ensures
        a == b || key_lt(a, b) || key_lt(b, a),
        !(key_lt(a, b) && key_lt(b, a)),
        !key_lt(a, a),
{
    lemma_lex_trichotomy(encode_utf8(a), encode_utf8(b));
    lemma_lex_irreflexive(encode_utf8(a));
    if encode_utf8(a) == encode_utf8(b) {
        lemma_utf8_injective(a, b);
    }
}

/// The order on keys is transitive.
pub proof fn lemma_key_order_transitive(a: Seq<char>, b: Seq<char>, c: Seq<char>)
    requires
        key_lt(a, b),
        key_lt(b, c),
    ensures
        key_lt(a, c),
{
    lemma_lex_transitive(encode_utf8(a), encode_utf8(b), encode_utf8(c));
}

/// Whether two byte slices hold the same bytes.
pub fn bytes_eq(a: &[u8], b: &[u8]) -> (same: bool)
    ensures
        same == (a@ == b@),
{
    if a.len() != b.len() {
        return false;
    }
    let mut i: usize = 0;
    while i < a.len()
        invariant
            a@.len() == b@.len(),
            i <= a@.len(),
            a@.subrange(0, i as int) == b@.subrange(0, i as int),
        decreases a.len() - i,
    {
        if a[i] != b[i] {
            return false;
        }
        assert(a@.subrange(0, i + 1) =~= a@.subrange(0, i as int).push(a@[i as int]));
        assert(b@.subrange(0, i + 1) =~= b@.subrange(0, i as int).push(b@[i as int]));
        i += 1;
    }
    assert(a@ =~= a@.subrange(0, i as int));
    assert(b@ =~= b@.subrange(0, i as int));
    true
}

/// Compares two byte slices lexicographically.
pub fn compare_bytes(a: &[u8], b: &[u8]) -> (order: KeyOrder)
    ensures
        order == KeyOrder::Before <==> lex_lt(a@, b@),
        order == KeyOrder::Same <==> a@ == b@,
        order == KeyOrder::After <==> lex_lt(b@, a@),
{
    let mut i: usize = 0;
    proof {
        lemma_lex_trichotomy(a@, b@);
        assert(a@.skip(0) =~= a@);
        assert(b@.skip(0) =~= b@);
    }
    while i < a.len() && i < b.len()
        invariant
            i <= a@.len(),
            i <= b@.len(),
            a@.subrange(0, i as int) == b@.subrange(0, i as int),
            lex_lt(a@, b@) == lex_lt(a@.skip(i as int), b@.skip(i as int)),
            lex_lt(b@, a@) == lex_lt(b@.skip(i as int), a@.skip(i as int)),
            a@ == b@ || lex_lt(a@, b@) || lex_lt(b@, a@),
            !(lex_lt(a@, b@) && lex_lt(b@, a@)),
            a@ == b@ ==> !lex_lt(a@, b@),
        decreases a.len() - i,
    {
        let x = a[i];
        let y = b[i];
        proof {
            assert(a@.skip(i as int)[0] == x);
            assert(b@.skip(i as int)[0] == y);
            assert(a@.skip(i as int).drop_first() =~= a@.skip(i + 1));
            assert(b@.skip(i as int).drop_first() =~= b@.skip(i + 1));
        }
        if x < y {
            return KeyOrder::Before;
        }
        if y < x {
            return KeyOrder::After;
        }
        assert(a@.subrange(0, i + 1) =~= a@.subrange(0, i as int).push(x));
        assert(b@.subrange(0, i + 1) =~= b@.subrange(0, i as int).push(y));
        i += 1;
    }
    if i < b.len() {
        assert(a@.skip(i as int).len() == 0);
        KeyOrder::Before
    } else if i < a.len() {
        assert(b@.skip(i as int).len() == 0);
        KeyOrder::After
    } else {
        assert(a@ =~= a@.subrange(0, i as int));
        assert(b@ =~= b@.subrange(0, i as int));
        KeyOrder::Same
    }
}

/// Whether two strings are equal.
pub fn str_eq(a: &str, b: &str) -> (same: bool)
    ensures
        same == (a@ == b@),
{
    let same = bytes_eq(a.as_bytes(), b.as_bytes());
    proof {
        if same {
            lemma_utf8_injective(a@, b@);
        }
    }
    same
}

/// Compares two keys in the order on keys.
pub fn compare_keys(a: &str, b: &str) -> (order: KeyOrder)
    ensures
        order == KeyOrder::Before <==> key_lt(a@, b@),
        order == KeyOrder::Same <==> a@ == b@,
        order == KeyOrder::After <==> key_lt(b@, a@),
{
    let order = compare_bytes(a.as_bytes(), b.as_bytes());
    proof {
        if order == KeyOrder::Same {
            lemma_utf8_injective(a@, b@);
        }
        lemma_key_order_total(a@, b@);
    }
    order
}

/// The pieces of `bytes` between occurrences of `sep`: an empty sequence is one
/// empty piece, and `n` occurrences of `sep` make `n + 1` pieces.
pub open spec fn split_on(bytes: Seq<u8>, sep: u8) -> Seq<Seq<u8>>
    decreases bytes.len(),
{
    if bytes.len() == 0 {
        seq![Seq::<u8>::empty()]
    } else {
        let rest = split_on(bytes.drop_first(), sep);
        if bytes[0] == sep {
            seq![Seq::<u8>::empty()] + rest
        } else {
            rest.update(0, seq![bytes[0]] + rest[0])
        }
    }
}

/// The pieces joined with `sep` between them.
pub open spec fn join_with(pieces: Seq<Seq<u8>>, sep: u8) -> Seq<u8>
    decreases pieces.len(),
{
    if pieces.len() == 0 {
        Seq::<u8>::empty()
    } else if pieces.len() == 1 {
        pieces[0]
    } else {
        pieces[0] + seq![sep] + join_with(pieces.drop_first(), sep)
    }
}

/// A split always yields at least one piece.
pub proof fn lemma_split_nonempty(bytes: Seq<u8>, sep: u8)
    ensures
        split_on(bytes, sep).len() >= 1,
    decreases bytes.len(),
{
    if bytes.len() > 0 {
        lemma_split_nonempty(bytes.drop_first(), sep);
    }
}

/// The first piece of a split is no longer than the whole, and as long only
/// where it is the whole.
pub proof fn lemma_split_first_piece(bytes: Seq<u8>, sep: u8)
    ensures
        split_on(bytes, sep).len() >= 1,
        split_on(bytes, sep)[0].len() <= bytes.len(),
        split_on(bytes, sep)[0].len() == bytes.len() ==> split_on(bytes, sep)[0] == bytes,
    decreases bytes.len(),
{
    if bytes.len() == 0 {
        assert(bytes =~= Seq::<u8>::empty());
    } else {
        let tail = bytes.drop_first();
        lemma_split_first_piece(tail, sep);
        if bytes[0] != sep {
            let piece = seq![bytes[0]] + split_on(tail, sep)[0];
            assert(split_on(bytes, sep)[0] == piece);
            if piece.len() == bytes.len() {
                assert(piece =~= bytes);
            }
        }
    }
}

/// Bytes without the separator are a single piece.
pub proof fn lemma_split_whole(bytes: Seq<u8>, sep: u8)
    requires
        !bytes.contains(sep),
    ensures
        split_on(bytes, sep) == seq![bytes],
    decreases bytes.len(),
{
    if bytes.len() == 0 {
        assert(bytes =~= Seq::<u8>::empty());
    } else {
        let tail = bytes.drop_first();
        assert(bytes[0] != sep);
        assert forall|i: int| 0 <= i < tail.len() implies tail[i] != sep by {
            assert(tail[i] == bytes[i + 1]);
        }
        lemma_split_whole(tail, sep);
        assert(seq![bytes[0]] + tail =~= bytes);
        assert(split_on(bytes, sep) =~= seq![bytes]);
    }
}

/// A piece free of the separator, then the separator, then anything: the split
/// starts with that piece and goes on with the split of the rest.
pub proof fn lemma_split_first(head: Seq<u8>, rest: Seq<u8>, sep: u8)
    requires
        !head.contains(sep),
    ensures
        split_on(head + seq![sep] + rest, sep) == seq![head] + split_on(rest, sep),
    decreases head.len(),
{
    let bytes = head + seq![sep] + rest;
    if head.len() == 0 {
        assert(bytes.drop_first() =~= rest);
        assert(head =~= Seq::<u8>::empty());
    } else {
        let tail = head.drop_first();
        assert(bytes[0] == head[0]);
        assert(head[0] != sep);
        assert forall|i: int| 0 <= i < tail.len() implies tail[i] != sep by {
            assert(tail[i] == head[i + 1]);
        }
        lemma_split_first(tail, rest, sep);
        assert(bytes.drop_first() =~= tail + seq![sep] + rest);
        assert(seq![head[0]] + tail =~= head);
        assert(split_on(bytes, sep) =~= seq![head] + split_on(rest, sep));
    }
}

/// Two sequences without a byte have none of it together.
pub proof fn lemma_concat_lacks(a: Seq<u8>, b: Seq<u8>, byte: u8)
    requires
        !a.contains(byte),
        !b.contains(byte),
    ensures
        !(a + b).contains(byte),
{
    assert forall|i: int| 0 <= i < (a + b).len() implies (a + b)[i] != byte by {
        if i < a.len() {
            assert(a[i] == (a + b)[i]);
        } else {
            assert(b[i - a.len()] == (a + b)[i]);
        }
    }
}

/// The split of a concatenation: the last piece of the first part and the first
/// piece of the second part grow together, the other pieces stay as they are.
pub proof fn lemma_split_concat(a: Seq<u8>, b: Seq<u8>, sep: u8)
    ensures
        split_on(a + b, sep) == split_on(a, sep).drop_last() + seq![
            split_on(a, sep).last() + split_on(b, sep)[0],
        ] + split_on(b, sep).drop_first(),
    decreases a.len(),
{
    let sa = split_on(a, sep);
    let sb = split_on(b, sep);
    lemma_split_nonempty(a, sep);
    lemma_split_nonempty(b, sep);
    let joined = sa.drop_last() + seq![sa.last() + sb[0]] + sb.drop_first();
    if a.len() == 0 {
        assert(a + b =~= b);
        assert(sa.last() + sb[0] =~= sb[0]);
        assert(joined =~= sb);
    } else {
        let t = a.drop_first();
        let st = split_on(t, sep);
        lemma_split_nonempty(t, sep);
        lemma_split_concat(t, b, sep);
        assert((a + b).drop_first() =~= t + b);
        assert((a + b)[0] == a[0]);
        if a[0] == sep {
            assert(split_on(a + b, sep) =~= joined);
        } else {
            if st.len() == 1 {
                assert(seq![a[0]] + (st[0] + sb[0]) =~= (seq![a[0]] + st[0]) + sb[0]);
            }
            assert(split_on(a + b, sep) =~= joined);
        }
    }
}

/// What a split is: no piece holds the separator, and the pieces joined with the
/// separator are the bytes that were split.
pub proof fn lemma_split_pieces(bytes: Seq<u8>, sep: u8)
    ensures
        split_on(bytes, sep).len() >= 1,
        forall|i: int|
            0 <= i < split_on(bytes, sep).len() ==> !(#[trigger] split_on(bytes, sep)[i]).contains(
                sep,
            ),
        join_with(split_on(bytes, sep), sep) == bytes,
    decreases bytes.len(),
{
    let pieces = split_on(bytes, sep);
    if bytes.len() == 0 {
        assert(join_with(pieces, sep) =~= bytes);
    } else {
        let tail = bytes.drop_first();
        let rest = split_on(tail, sep);
        lemma_split_pieces(tail, sep);
        assert(seq![bytes[0]] + tail =~= bytes);
        if bytes[0] == sep {
            assert(pieces.drop_first() =~= rest);
            assert(pieces[0] + seq![sep] + join_with(rest, sep) =~= bytes);
            assert forall|i: int| 0 <= i < pieces.len() implies !(#[trigger] pieces[i]).contains(
                sep,
            ) by {
                if i > 0 {
                    assert(pieces[i] == rest[i - 1]);
                }
            }
        } else {
            let first = seq![bytes[0]] + rest[0];
            assert(pieces[0] == first);
            assert forall|j: int| 0 <= j < first.len() implies first[j] != sep by {
                if j > 0 {
                    assert(first[j] == rest[0][j - 1]);
                }
            }
            assert forall|i: int| 0 <= i < pieces.len() implies !(#[trigger] pieces[i]).contains(
                sep,
            ) by {
                if i > 0 {
                    assert(pieces[i] == rest[i]);
                }
            }
            if rest.len() == 1 {
                assert(join_with(pieces, sep) =~= bytes);
            } else {
                assert(pieces.drop_first() =~= rest.drop_first());
                assert(first + seq![sep] + join_with(rest.drop_first(), sep) =~= seq![bytes[0]] + (
                rest[0] + seq![sep] + join_with(rest.drop_first(), sep)));
                assert(join_with(pieces, sep) =~= bytes);
            }
        }
    }
}

/// Splitting undoes joining, where no piece holds the separator.
pub proof fn lemma_split_join(pieces: Seq<Seq<u8>>, sep: u8)
    requires
        pieces.len() >= 1,
        forall|i: int| 0 <= i < pieces.len() ==> !(#[trigger] pieces[i]).contains(sep),
    ensures
        split_on(join_with(pieces, sep), sep) == pieces,
    decreases pieces.len(),
{
    if pieces.len() == 1 {
        lemma_split_whole(pieces[0], sep);
        assert(pieces =~= seq![pieces[0]]);
    } else {
        let tail = pieces.drop_first();
        assert forall|i: int| 0 <= i < tail.len() implies !(#[trigger] tail[i]).contains(sep) by {
            assert(tail[i] == pieces[i + 1]);
        }
        lemma_split_join(tail, sep);
        lemma_split_first(pieces[0], join_with(tail, sep), sep);
        assert(seq![pieces[0]] + tail =~= pieces);
    }
}

/// Cuts a string at the first occurrence of the ASCII byte `sep`: the part
/// before it, and the part after it if `sep` occurs at all.
pub(crate) fn split_first<'a>(s: &'a str, sep: u8) -> (parts: (&'a str, Option<&'a str>))
    requires
        sep < 0x80,
    ensures
        !encode_utf8(parts.0@).contains(sep),
        match parts.1 {
            None => parts.0@ == s@,
            Some(rest) => encode_utf8(s@) == encode_utf8(parts.0@) + seq![sep] + encode_utf8(
                rest@,
            ),
        },
{
    let bytes = s.as_bytes();
    let mut i: usize = 0;
    while i < bytes.len()
        invariant
            i <= bytes@.len(),
            bytes@ == encode_utf8(s@),
            sep < 0x80,
            forall|j: int| 0 <= j < i ==> bytes@[j] != sep,
        decreases bytes.len() - i,
    {
        if bytes[i] == sep {
            proof {
                encode_utf8_valid_utf8(s@);
                is_char_boundary_iff_not_is_continuation_byte(bytes@, i as int);
            }
            let (head, tail) = s.split_at(i);
            proof {
                let tb = encode_utf8(tail@);
                encode_utf8_valid_utf8(tail@);
                assert(tb[0] == sep);
                assert(is_char_boundary(tb, 1)) by {
                    reveal_with_fuel(is_char_boundary, 2);
                }
            }
            let (_, rest) = tail.split_at(1);
            proof {
                let hb = encode_utf8(head@);
                let tb = encode_utf8(tail@);
                assert(tb =~= seq![sep] + encode_utf8(rest@));
                assert(bytes@ =~= hb + seq![sep] + encode_utf8(rest@));
                assert forall|j: int| 0 <= j < hb.len() implies hb[j] != sep by {
                    assert(hb[j] == bytes@[j]);
                }
            }
            return (head, Some(rest));
        }
        i += 1;
    }
    (s, None)
}

/// The UTF-8 bytes of each of the pieces.
pub open spec fn pieces_bytes(pieces: Seq<&str>) -> Seq<Seq<u8>> {
    Seq::new(pieces.len(), |i: int| encode_utf8(pieces[i]@))
}

/// Cuts a string at every occurrence of the ASCII byte `sep`.
pub(crate) fn split_fields<'a>(s: &'a str, sep: u8) -> (pieces: Vec<&'a str>)
    requires
        sep < 0x80,
    ensures
        pieces_bytes(pieces@) == split_on(encode_utf8(s@), sep),
{
    let mut pieces: Vec<&'a str> = Vec::new();
    let mut cur: &'a str = s;
    loop
        invariant_except_break
            sep < 0x80,
            split_on(encode_utf8(s@), sep) == pieces_bytes(pieces@) + split_on(
                encode_utf8(cur@),
                sep,
            ),
        ensures
            pieces_bytes(pieces@) == split_on(encode_utf8(s@), sep),
        decreases encode_utf8(cur@).len(),
    {
        let ghost before = pieces@;
        let (head, rest) = split_first(cur, sep);
        pieces.push(head);
        assert(pieces_bytes(pieces@) =~= pieces_bytes(before) + seq![encode_utf8(head@)]);
        match rest {
            None => {
                proof {
                    lemma_split_whole(encode_utf8(cur@), sep);
                }
                break ;
            },
            Some(more) => {
                proof {
                    lemma_split_first(encode_utf8(head@), encode_utf8(more@), sep);
                    assert(pieces_bytes(before) + (seq![encode_utf8(head@)] + split_on(
                        encode_utf8(more@),
                        sep,
                    )) =~= pieces_bytes(pieces@) + split_on(encode_utf8(more@), sep));
                }
                cur = more;
            },
        }
    }
    pieces
}

/// The UTF-8 bytes of a concatenation are the concatenation of the UTF-8 bytes.
pub proof fn lemma_utf8_concat(a: Seq<char>, b: Seq<char>)
    ensures
        encode_utf8(a + b) == encode_utf8(a) + encode_utf8(b),
    decreases a.len(),
{
    if a.len() == 0 {
        assert(a + b =~= b);
        assert(encode_utf8(a) + encode_utf8(b) =~= encode_utf8(b));
    } else {
        lemma_utf8_concat(a.drop_first(), b);
        assert((a + b).drop_first() =~= a.drop_first() + b);
        assert(encode_utf8(a + b) =~= encode_utf8(a) + encode_utf8(b));
    }
}

/// The sixteen hexadecimal digits, lower case.
pub open spec fn hex_digit(n: int) -> char {
    seq!['0', '1', '2', '3', '4', '5', '6', '7', '8', '9', 'a', 'b', 'c', 'd', 'e', 'f'][n]
}

/// Bytes written in hexadecimal: two lower-case digits for each byte, the high
/// half first.
pub open spec fn hex_chars(bytes: Seq<u8>) -> Seq<char>
    decreases bytes.len(),
{
    if bytes.len() == 0 {
        Seq::<char>::empty()
    } else {
        hex_chars(bytes.drop_last()) + seq![
            hex_digit(bytes.last() as int / 16),
            hex_digit(bytes.last() as int % 16),
        ]
    }
}

/// Hexadecimal text has two characters for each byte, all of them ASCII letters
/// and digits, so its UTF-8 bytes hold neither a space nor a line feed.
pub proof fn lemma_hex_chars_plain(bytes: Seq<u8>)
    ensures
        hex_chars(bytes).len() == 2 * bytes.len(),
        is_ascii_chars(hex_chars(bytes)),
        encode_utf8(hex_chars(bytes)).len() == 2 * bytes.len(),
        !encode_utf8(hex_chars(bytes)).contains(0x20),
        !encode_utf8(hex_chars(bytes)).contains(0x0a),
    decreases bytes.len(),
{
    let text = hex_chars(bytes);
    lemma_hex_digits(bytes);
    is_ascii_chars_encode_utf8(text);
    let encoded = encode_utf8(text);
    assert forall|i: int| 0 <= i < encoded.len() implies encoded[i] != 0x20 && encoded[i]
        != 0x0a by {
        assert(text[i] as u8 == encoded[i]);
        assert(is_hex_digit(text[i]));
    }
}

/// Whether a character is one of the sixteen hexadecimal digits.
pub open spec fn is_hex_digit(c: char) -> bool {
    ('0' <= c <= '9') || ('a' <= c <= 'f')
}

proof fn lemma_hex_digits(bytes: Seq<u8>)
    ensures
        hex_chars(bytes).len() == 2 * bytes.len(),
        is_ascii_chars(hex_chars(bytes)),
        forall|i: int| 0 <= i < hex_chars(bytes).len() ==> is_hex_digit(#[trigger] hex_chars(bytes)[i]),
    decreases bytes.len(),
{
    if bytes.len() > 0 {
        lemma_hex_digits(bytes.drop_last());
        let hi = bytes.last() as int / 16;
        let lo = bytes.last() as int % 16;
        assert(is_hex_digit(hex_digit(hi)));
        assert(is_hex_digit(hex_digit(lo)));
    }
}

/// The text of one hexadecimal digit.
fn hex_digit_str(n: u8) -> (s: &'static str)
    requires
        n < 16,
    ensures
        s@ == seq![hex_digit(n as int)],
{
    proof {
        reveal_strlit("0");
        reveal_strlit("1");
        reveal_strlit("2");
        reveal_strlit("3");
        reveal_strlit("4");
        reveal_strlit("5");
        reveal_strlit("6");
        reveal_strlit("7");
        reveal_strlit("8");
        reveal_strlit("9");
        reveal_strlit("a");
        reveal_strlit("b");
        reveal_strlit("c");
        reveal_strlit("d");
        reveal_strlit("e");
        reveal_strlit("f");
    }
    let s = match n {
        0 => "0",
        1 => "1",
        2 => "2",
        3 => "3",
        4 => "4",
        5 => "5",
        6 => "6",
        7 => "7",
        8 => "8",
        9 => "9",
        10 => "a",
        11 => "b",
        12 => "c",
        13 => "d",
        14 => "e",
        _ => "f",
    };
    assert(s@ =~= seq![hex_digit(n as int)]);
    s
}

/// Writes bytes in hexadecimal.
pub fn to_hex(bytes: &[u8]) -> (text: String)
    ensures
        text@ == hex_chars(bytes@),
{
    let mut text = String::new();
    let mut i: usize = 0;
    while i < bytes.len()
        invariant
            i <= bytes@.len(),
            text@ == hex_chars(bytes@.subrange(0, i as int)),
        decreases bytes.len() - i,
    {
        let b = bytes[i];
        let hi = hex_digit_str(b / 16);
        let lo = hex_digit_str(b % 16);
        text.append(hi);
        text.append(lo);
        proof {
            let upto = bytes@.subrange(0, i + 1);
            assert(upto.drop_last() =~= bytes@.subrange(0, i as int));
            assert(upto.last() == b);
            assert(text@ =~= hex_chars(upto));
        }
        i += 1;
    }
    assert(bytes@.subrange(0, i as int) =~= bytes@);
    text
}

} // verus!
