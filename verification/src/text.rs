//! Text building blocks: decimal and hexadecimal numerals, byte prefixes of
//! UTF-8 text, character-wise comparison and joining.

use vstd::prelude::*;
use vstd::string::*;
use vstd::utf8::*;

verus! {

/// The character of a decimal digit.
pub open spec fn digit_char(d: nat) -> char {
    if d == 0 { '0' }
    else if d == 1 { '1' }
    else if d == 2 { '2' }
    else if d == 3 { '3' }
    else if d == 4 { '4' }
    else if d == 5 { '5' }
    else if d == 6 { '6' }
    else if d == 7 { '7' }
    else if d == 8 { '8' }
    else { '9' }
}

/// The decimal numeral of `n`, without leading zeros.
pub open spec fn decimal(n: nat) -> Seq<char>
    decreases n,
{
    if n < 10 {
        seq![digit_char(n)]
    } else {
        decimal(n / 10) + seq![digit_char(n % 10)]
    }
}

fn digit_str(d: u64) -> (s: &'static str)
    requires
        d < 10,
    ensures
        s@ == seq![digit_char(d as nat)],
{
    proof {
        reveal_strlit("0");
        reveal_strlit("1");
        reveal_strlit("2");
        reveal_strlit("3");
        reveal_strlit("4");
        reveal_strlit("5");
        reveal_strlit("6");
        reveal_strlit("7");
        reveal_strlit("8");
        reveal_strlit("9");
    }
    if d == 0 { "0" }
    else if d == 1 { "1" }
    else if d == 2 { "2" }
    else if d == 3 { "3" }
    else if d == 4 { "4" }
    else if d == 5 { "5" }
    else if d == 6 { "6" }
    else if d == 7 { "7" }
    else if d == 8 { "8" }
    else { "9" }
}

/// Appends the decimal numeral of `n` to `out`.
pub fn push_decimal(out: &mut String, n: u64)
    ensures
        final(out)@ == old(out)@ + decimal(n as nat),
    decreases n,
{
    if n >= 10 {
        push_decimal(out, n / 10);
    }
    out.append(digit_str(n % 10));
    assert(out@ =~= old(out)@ + decimal(n as nat));
}

/// The lower-case hexadecimal digit of `d`, for `d < 16`.
pub open spec fn hex_char(d: nat) -> char {
    if d < 10 { digit_char(d) }
    else if d == 10 { 'a' }
    else if d == 11 { 'b' }
    else if d == 12 { 'c' }
    else if d == 13 { 'd' }
    else if d == 14 { 'e' }
    else { 'f' }
}

/// Two lower-case hexadecimal digits per byte, high nibble first.
pub open spec fn hex(bytes: Seq<u8>) -> Seq<char>
    decreases bytes.len(),
{
    if bytes.len() == 0 {
        Seq::empty()
    } else {
        hex(bytes.drop_last()) + seq![
            hex_char((bytes.last() / 16) as nat),
            hex_char((bytes.last() % 16) as nat),
        ]
    }
}

fn hex_str(d: u8) -> (s: &'static str)
    requires
        d < 16,
    ensures
        s@ == seq![hex_char(d as nat)],
{
    if d < 10 {
        return digit_str(d as u64);
    }
    proof {
        reveal_strlit("a");
        reveal_strlit("b");
        reveal_strlit("c");
        reveal_strlit("d");
        reveal_strlit("e");
        reveal_strlit("f");
    }
    if d == 10 { "a" }
    else if d == 11 { "b" }
    else if d == 12 { "c" }
    else if d == 13 { "d" }
    else if d == 14 { "e" }
    else { "f" }
}

/// The lower-case hexadecimal text of `bytes`.
pub fn hex_lower(bytes: &[u8]) -> (s: String)
    ensures
        s@ == hex(bytes@),
{
    let mut s = String::new();
    let mut i: usize = 0;
    while i < bytes.len()
        invariant
            i <= bytes@.len(),
            s@ == hex(bytes@.take(i as int)),
        decreases bytes@.len() - i,
    {
        let b = bytes[i];
        s.append(hex_str(b / 16));
        s.append(hex_str(b % 16));
        assert(bytes@.take(i + 1).drop_last() =~= bytes@.take(i as int));
        i = i + 1;
        assert(s@ =~= hex(bytes@.take(i as int)));
    }
    assert(bytes@.take(i as int) =~= bytes@);
    s
}

/// The texts of an optional argument.
pub open spec fn opt_text(o: Option<&str>) -> Option<Seq<char>> {
    match o {
        Some(s) => Some(s@),
        None => None,
    }
}

/// `hex` gives two characters per byte.
pub proof fn lemma_hex_len(bytes: Seq<u8>)
    ensures
        hex(bytes).len() == 2 * bytes.len(),
    decreases bytes.len(),
{
    if bytes.len() > 0 {
        lemma_hex_len(bytes.drop_last());
    }
}

/// Hex text is ASCII.
pub proof fn lemma_hex_ascii(bytes: Seq<u8>)
    ensures
        is_ascii_chars(hex(bytes)),
    decreases bytes.len(),
{
    if bytes.len() > 0 {
        lemma_hex_ascii(bytes.drop_last());
        let h = hex(bytes);
        let front = hex(bytes.drop_last());
        assert forall|i: int| 0 <= i < h.len() implies '\0' <= #[trigger] h[i] <= '\u{7f}' by {
            if i < front.len() {
                assert(h[i] == front[i]);
            }
        }
    }
}

/// ASCII text splits between characters at every byte, and its first `k`
/// bytes are its first `k` characters.
pub proof fn lemma_ascii_prefix(s: Seq<char>, k: int)
    requires
        is_ascii_chars(s),
        0 <= k <= s.len(),
    ensures
        splits_at(s, k),
        byte_prefix(s, k) == s.take(k),
{
    let e = encode_utf8(s);
    encode_utf8_valid_utf8(s);
    is_ascii_chars_encode_utf8(s);
    if k == s.len() {
        is_char_boundary_start_end_of_seq(e);
    } else {
        assert(e[k] == s[k] as u8);
        is_char_boundary_iff_not_is_continuation_byte(e, k);
    }
    let p = s.take(k);
    assert(is_ascii_chars(p));
    is_ascii_chars_encode_utf8(p);
    assert(encode_utf8(p) =~= e.take(k));
    encode_utf8_decode_utf8(p);
}

/// The text whose UTF-8 encoding is the first `k` bytes of the encoding of `s`.
pub open spec fn byte_prefix(s: Seq<char>, k: int) -> Seq<char> {
    decode_utf8(encode_utf8(s).take(k))
}

/// Byte `k` of the UTF-8 encoding of `s` starts a character (or ends the text).
pub open spec fn splits_at(s: Seq<char>, k: int) -> bool {
    is_char_boundary(encode_utf8(s), k)
}

/// The first `k` bytes of `s`, as text; `k` must fall between characters.
pub fn byte_prefix_of(s: &str, k: usize) -> (r: String)
    requires
        splits_at(s@, k as int),
    ensures
        r@ == byte_prefix(s@, k as int),
{
    let (head, _tail) = s.split_at(k);
    proof {
        broadcast use vstd::utf8::encode_utf8_decode_utf8;
        assert(decode_utf8(encode_utf8(head@)) == head@);
    }
    head.to_owned()
}

/// The UTF-8 encoding of `p` begins the UTF-8 encoding of `s`.
pub open spec fn starts_with(s: Seq<char>, p: Seq<char>) -> bool {
    encode_utf8(p).is_prefix_of(encode_utf8(s))
}

/// Whether the text `s` begins with the text `p`.
pub fn text_starts_with(s: &str, p: &str) -> (r: bool)
    ensures
        r == starts_with(s@, p@),
{
    let sb = s.as_bytes();
    let pb = p.as_bytes();
    if pb.len() > sb.len() {
        return false;
    }
    let mut i: usize = 0;
    while i < pb.len()
        invariant
            i <= pb@.len() <= sb@.len(),
            pb@ == encode_utf8(p@),
            sb@ == encode_utf8(s@),
            forall|j: int| 0 <= j < i ==> pb@[j] == sb@[j],
        decreases pb@.len() - i,
    {
        if pb[i] != sb[i] {
            assert(sb@.subrange(0, pb@.len() as int)[i as int] != pb@[i as int]);
            return false;
        }
        i = i + 1;
    }
    assert(pb@ =~= sb@.subrange(0, pb@.len() as int));
    true
}

/// Whether two texts are equal.
pub fn text_eq(a: &str, b: &str) -> (r: bool)
    ensures
        r == (a@ == b@),
{
    let x: String = a.to_owned();
    let y: String = b.to_owned();
    x == y
}

/// `a` and `b` agree before position `k`, and at `k` either `a` has ended
/// while `b` goes on, or the byte of `a` is smaller.
pub open spec fn bytes_lt_at(a: Seq<u8>, b: Seq<u8>, k: int) -> bool {
    &&& 0 <= k <= a.len()
    &&& k <= b.len()
    &&& forall|i: int| 0 <= i < k ==> a[i] == b[i]
    &&& {
        ||| (k == a.len() && k < b.len())
        ||| (k < a.len() && k < b.len() && a[k] < b[k])
    }
}

/// Lexicographic order of byte strings, the order of `str` and `String`.
pub open spec fn bytes_lt(a: Seq<u8>, b: Seq<u8>) -> bool {
    exists|k: int| bytes_lt_at(a, b, k)
}

/// Lexicographic order of texts by their UTF-8 encodings.
pub open spec fn text_lt(a: Seq<char>, b: Seq<char>) -> bool {
    bytes_lt(encode_utf8(a), encode_utf8(b))
}

/// The order of byte strings is irreflexive and transitive.
pub proof fn lemma_bytes_lt_strict(a: Seq<u8>, b: Seq<u8>, c: Seq<u8>)
    ensures
        !bytes_lt(a, a),
        bytes_lt(a, b) && bytes_lt(b, c) ==> bytes_lt(a, c),
        bytes_lt(a, b) ==> !bytes_lt(b, a),
{
    if bytes_lt(a, a) {
        let k = choose|k: int| bytes_lt_at(a, a, k);
    }
    if bytes_lt(a, b) && bytes_lt(b, c) {
        let k1 = choose|k: int| bytes_lt_at(a, b, k);
        let k2 = choose|k: int| bytes_lt_at(b, c, k);
        let k = if k1 < k2 { k1 } else { k2 };
        assert(bytes_lt_at(a, c, k));
    }
    if bytes_lt(a, b) && bytes_lt(b, a) {
        let k1 = choose|k: int| bytes_lt_at(a, b, k);
        let k2 = choose|k: int| bytes_lt_at(b, a, k);
        if k1 < k2 {
            assert(b[k1] == a[k1]);
        } else if k2 < k1 {
            assert(a[k2] == b[k2]);
        }
    }
}

/// Two different byte strings are ordered one way or the other.
pub proof fn lemma_bytes_lt_total(a: Seq<u8>, b: Seq<u8>)
    requires
        a != b,
    ensures
        bytes_lt(a, b) || bytes_lt(b, a),
{
    lemma_bytes_lt_total_from(a, b, 0);
}

proof fn lemma_bytes_lt_total_from(a: Seq<u8>, b: Seq<u8>, k: int)
    requires
        a != b,
        0 <= k <= a.len(),
        k <= b.len(),
        forall|i: int| 0 <= i < k ==> a[i] == b[i],
    ensures
        bytes_lt(a, b) || bytes_lt(b, a),
    decreases a.len() - k,
{
    if k == a.len() || k == b.len() {
        if a.len() == b.len() {
            assert(a =~= b);
        } else if a.len() < b.len() {
            assert(bytes_lt_at(a, b, k));
        } else {
            assert(bytes_lt_at(b, a, k));
        }
    } else if a[k] < b[k] {
        assert(bytes_lt_at(a, b, k));
    } else if b[k] < a[k] {
        assert(bytes_lt_at(b, a, k));
    } else {
        lemma_bytes_lt_total_from(a, b, k + 1);
    }
}

/// The order of texts is a strict total order.
pub proof fn lemma_text_lt_order(a: Seq<char>, b: Seq<char>, c: Seq<char>)
    ensures
        !text_lt(a, a),
        text_lt(a, b) && text_lt(b, c) ==> text_lt(a, c),
        text_lt(a, b) ==> !text_lt(b, a),
        a != b ==> text_lt(a, b) || text_lt(b, a),
{
    lemma_bytes_lt_strict(encode_utf8(a), encode_utf8(b), encode_utf8(c));
    if a != b {
        encode_utf8_decode_utf8(a);
        encode_utf8_decode_utf8(b);
        lemma_bytes_lt_total(encode_utf8(a), encode_utf8(b));
    }
}

/// How two texts compare in the order of `str`.
pub enum TextOrder {
    Less,
    Equal,
    Greater,
}

/// Compares two texts byte by byte, as `str` is ordered.
pub fn text_compare(a: &str, b: &str) -> (r: TextOrder)
    ensures
        r is Less <==> text_lt(a@, b@),
        r is Equal <==> a@ == b@,
        r is Greater <==> text_lt(b@, a@),
{
    let ab = a.as_bytes();
    let bb = b.as_bytes();
    let ghost ea = encode_utf8(a@);
    let ghost eb = encode_utf8(b@);
    let mut i: usize = 0;
    while i < ab.len() && i < bb.len() && ab[i] == bb[i]
        invariant
            i <= ab@.len(),
            i <= bb@.len(),
            forall|j: int| 0 <= j < i ==> ab@[j] == bb@[j],
        decreases ab@.len() - i,
    {
        i = i + 1;
    }
    proof {
        broadcast use vstd::utf8::encode_utf8_decode_utf8;
        lemma_bytes_lt_strict(ea, eb, ea);
        lemma_bytes_lt_strict(eb, ea, eb);
        assert(decode_utf8(encode_utf8(a@)) == a@);
        assert(decode_utf8(encode_utf8(b@)) == b@);
    }
    if i < ab.len() && i < bb.len() {
        if ab[i] < bb[i] {
            assert(bytes_lt_at(ea, eb, i as int));
            TextOrder::Less
        } else {
            assert(bytes_lt_at(eb, ea, i as int));
            TextOrder::Greater
        }
    } else if ab.len() < bb.len() {
        assert(bytes_lt_at(ea, eb, i as int));
        TextOrder::Less
    } else if bb.len() < ab.len() {
        assert(bytes_lt_at(eb, ea, i as int));
        TextOrder::Greater
    } else {
        assert(ea =~= eb);
        TextOrder::Equal
    }
}

/// What `String::from_utf8_lossy` makes of `bytes`.
pub uninterp spec fn lossy_text(bytes: Seq<u8>) -> Seq<char>;

/// `String::from_utf8_lossy`: the bytes read as UTF-8, each invalid sequence
/// replaced by U+FFFD; the contract states only that valid UTF-8 is read
/// as it stands.
#[verifier::external_body]
pub(crate) fn text_from_utf8_lossy(bytes: &[u8]) -> (r: String)
    ensures
        r@ == lossy_text(bytes@),
        valid_utf8(bytes@) ==> r@ == decode_utf8(bytes@),
{
    String::from_utf8_lossy(bytes).into_owned()
}

/// `c` has the Unicode White_Space property: tab through carriage return,
/// space, next line, no-break space, ogham space mark, en quad through hair
/// space, line and paragraph separators, narrow no-break space, medium
/// mathematical space and ideographic space.
pub open spec fn is_white_space(c: char) -> bool {
    let u = c as u32;
    ||| 0x09 <= u <= 0x0d
    ||| u == 0x20
    ||| u == 0x85
    ||| u == 0xa0
    ||| u == 0x1680
    ||| 0x2000 <= u <= 0x200a
    ||| u == 0x2028
    ||| u == 0x2029
    ||| u == 0x202f
    ||| u == 0x205f
    ||| u == 0x3000
}

/// `s` without its leading white space.
pub open spec fn trim_front(s: Seq<char>) -> Seq<char>
    decreases s.len(),
{
    if s.len() > 0 && is_white_space(s[0]) {
        trim_front(s.drop_first())
    } else {
        s
    }
}

/// `s` without its trailing white space.
pub open spec fn trim_back(s: Seq<char>) -> Seq<char>
    decreases s.len(),
{
    if s.len() > 0 && is_white_space(s.last()) {
        trim_back(s.drop_last())
    } else {
        s
    }
}

/// `s` without its leading and trailing white space.
pub open spec fn trimmed(s: Seq<char>) -> Seq<char> {
    trim_back(trim_front(s))
}

/// `str::trim`: the text without its leading and trailing white space, white
/// space being the characters with the Unicode White_Space property, as
/// `char::is_whitespace` documents them.
#[verifier::external_body]
pub(crate) fn text_trim(s: &str) -> (r: &str)
    ensures
        r@ == trimmed(s@),
{
    s.trim()
}

} // verus!
