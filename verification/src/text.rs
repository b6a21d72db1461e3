//! Searching and cutting string slices, stated over their characters.
//!
//! A `str` is handled byte by byte. Each result is stated over the characters
//! that the bytes encode, so the lemmas here relate the two: an ASCII byte of
//! a UTF-8 encoding stands for one ASCII character, and for no part of another.

use vstd::prelude::*;
use vstd::string::*;
use vstd::utf8::*;

verus! {

/// Whether `c` is an ASCII character.
pub open spec fn is_ascii_char(c: char) -> bool {
    c <= '\u{7f}'
}

/// `s` cut at the first `c`: what stands before it and what stands after it.
/// `None` where `s` holds no `c`.
pub open spec fn cut(s: Seq<char>, c: char) -> Option<(Seq<char>, Seq<char>)> {
    match s.index_of_first(c) {
        Some(i) => Some((s.take(i), s.skip(i + 1))),
        None => None,
    }
}

/// The pieces of `s` between the occurrences of `c`, in order. There is one
/// piece more than there are occurrences.
pub open spec fn pieces(s: Seq<char>, c: char) -> Seq<Seq<char>>
    decreases s.len(),
{
    proof {
        s.index_of_first_ensures(c);
    }
    match cut(s, c) {
        Some((piece, rest)) => seq![piece] + pieces(rest, c),
        None => seq![s],
    }
}

/// What follows `prefix` in `s`. `None` where `s` does not start with it.
pub open spec fn after_prefix(s: Seq<char>, prefix: Seq<char>) -> Option<Seq<char>> {
    if prefix.is_prefix_of(s) {
        Some(s.skip(prefix.len() as int))
    } else {
        None
    }
}

/// Cutting gives the one split whose left part holds no separator.
pub proof fn lemma_cut(left: Seq<char>, c: char, right: Seq<char>)
    requires
        !left.contains(c),
    ensures
        cut(left.push(c) + right, c) == Some((left, right)),
{
    let s = left.push(c) + right;
    s.index_of_first_ensures(c);
    assert(s[left.len() as int] == c);
    let i = s.index_of_first(c)->0;
    if i < left.len() {
        assert(left[i] == c);
    }
    assert(s.take(i) =~= left);
    assert(s.skip(i + 1) =~= right);
}

/// A cut puts the separator between its two parts, and none in the left part.
pub proof fn lemma_cut_parts(s: Seq<char>, c: char)
    ensures
        cut(s, c) is None <==> !s.contains(c),
        cut(s, c) matches Some((left, right)) ==> {
            &&& s == left.push(c) + right
            &&& !left.contains(c)
        },
{
    s.index_of_first_ensures(c);
    if let Some(i) = s.index_of_first(c) {
        assert(s =~= s.take(i).push(c) + s.skip(i + 1));
        if s.take(i).contains(c) {
            let k = choose|k: int| 0 <= k < s.take(i).len() && s.take(i)[k] == c;
            assert(s[k] == c);
        }
    }
}

/// UTF-8 encodes a concatenation part by part.
proof fn lemma_encode_concat(a: Seq<char>, b: Seq<char>)
    ensures
        encode_utf8(a + b) == encode_utf8(a) + encode_utf8(b),
    decreases a.len(),
{
    if a.len() == 0 {
        assert(a + b =~= b);
        assert(encode_utf8(a) + encode_utf8(b) =~= encode_utf8(b));
    } else {
        lemma_encode_concat(a.drop_first(), b);
        assert((a + b).drop_first() =~= a.drop_first() + b);
        assert(encode_utf8(a + b) =~= encode_utf8(a) + encode_utf8(b));
    }
}

/// Two strings with the same bytes have the same characters.
proof fn lemma_encode_injective(a: Seq<char>, b: Seq<char>)
    requires
        encode_utf8(a) == encode_utf8(b),
    ensures
        a == b,
{
    encode_utf8_decode_utf8(a);
    encode_utf8_decode_utf8(b);
}

/// An ASCII character is encoded as the byte with its value.
proof fn lemma_encode_ascii_char(c: char)
    requires
        is_ascii_char(c),
    ensures
        encode_utf8(seq![c]) == seq![c as u8],
{
    is_ascii_chars_encode_utf8(seq![c]);
    assert(seq![c][0] == c);
    assert(encode_utf8(seq![c]) =~= seq![c as u8]);
}

/// Where the bytes of a string hold no byte of value `c`, the string holds no
/// character `c`.
proof fn lemma_absent(s: Seq<char>, c: char)
    requires
        is_ascii_char(c),
        !encode_utf8(s).contains(c as u8),
    ensures
        !s.contains(c),
{
    if s.contains(c) {
        let k = choose|k: int| 0 <= k < s.len() && s[k] == c;
        assert(s =~= s.take(k) + (seq![c] + s.skip(k + 1)));
        lemma_encode_concat(s.take(k), seq![c] + s.skip(k + 1));
        lemma_encode_concat(seq![c], s.skip(k + 1));
        lemma_encode_ascii_char(c);
        assert(encode_utf8(s)[encode_utf8(s.take(k)).len() as int] == c as u8);
    }
}

/// The end of a run of ASCII bytes at the start of a UTF-8 encoding is the
/// boundary of a character.
proof fn lemma_ascii_boundary(bytes: Seq<u8>, n: int)
    requires
        valid_utf8(bytes),
        0 <= n <= bytes.len(),
        forall|i: int| 0 <= i < n ==> #[trigger] bytes[i] <= 0x7f,
    ensures
        is_char_boundary(bytes, n),
    decreases n,
{
    if n > 0 {
        let rest = pop_first_scalar(bytes);
        assert(bytes[0] <= 0x7f);
        assert(rest =~= bytes.skip(1));
        assert forall|i: int| 0 <= i < n - 1 implies #[trigger] rest[i] <= 0x7f by {
            assert(rest[i] == bytes[i + 1]);
        }
        lemma_ascii_boundary(rest, n - 1);
    }
}

/// Whether two string slices hold the same characters.
pub fn same(a: &str, b: &str) -> (r: bool)
    ensures
        r == (a@ == b@),
{
    let x: &[u8] = a.as_bytes();
    let y: &[u8] = b.as_bytes();
    if x.len() != y.len() {
        return false;
    }
    let mut i: usize = 0;
    while i < x.len()
        invariant
            x@ == encode_utf8(a@),
            y@ == encode_utf8(b@),
            x@.len() == y@.len(),
            i <= x@.len(),
            forall|k: int| 0 <= k < i ==> x@[k] == y@[k],
        decreases x@.len() - i,
    {
        if x[i] != y[i] {
            return false;
        }
        i = i + 1;
    }
    proof {
        assert(x@ =~= y@);
        lemma_encode_injective(a@, b@);
    }
    true
}

/// Cuts `s` at the first `c`, an ASCII character.
pub fn split_once<'a>(s: &'a str, c: char) -> (r: Option<(&'a str, &'a str)>)
    requires
        is_ascii_char(c),
    ensures
        match r {
            Some((left, right)) => cut(s@, c) == Some((left@, right@)),
            None => cut(s@, c) is None,
        },
{
    let bytes: &[u8] = s.as_bytes();
    let target: u8 = c as u8;
    let mut i: usize = 0;
    while i < bytes.len() && bytes[i] != target
        invariant
            i <= bytes@.len(),
            forall|k: int| 0 <= k < i ==> bytes@[k] != target,
        decreases bytes@.len() - i,
    {
        i = i + 1;
    }
    if i == bytes.len() {
        proof {
            lemma_absent(s@, c);
            lemma_cut_parts(s@, c);
        }
        return None;
    }
    proof {
        encode_utf8_valid_utf8(s@);
        is_char_boundary_iff_not_is_continuation_byte(bytes@, i as int);
    }
    let (left, tail) = s.split_at(i);
    proof {
        encode_utf8_valid_utf8(tail@);
        assert(encode_utf8(tail@)[0] == target);
        lemma_ascii_boundary(encode_utf8(tail@), 1);
    }
    let (sep, right) = tail.split_at(1);
    proof {
        lemma_encode_ascii_char(c);
        assert(encode_utf8(sep@) =~= seq![target]);
        lemma_encode_injective(sep@, seq![c]);
        lemma_encode_concat(left@.push(c), right@);
        lemma_encode_concat(left@, seq![c]);
        assert(left@.push(c) =~= left@ + seq![c]);
        assert(bytes@ =~= encode_utf8(left@) + (encode_utf8(sep@) + encode_utf8(right@)));
        assert(encode_utf8(left@.push(c) + right@) =~= encode_utf8(s@));
        lemma_encode_injective(left@.push(c) + right@, s@);
        assert(!encode_utf8(left@).contains(target));
        lemma_absent(left@, c);
        lemma_cut(left@, c, right@);
    }
    Some((left, right))
}

/// What follows `prefix`, a string of ASCII characters, in `s`.
pub fn strip_prefix<'a>(s: &'a str, prefix: &str) -> (r: Option<&'a str>)
    requires
        is_ascii_chars(prefix@),
    ensures
        match r {
            Some(rest) => after_prefix(s@, prefix@) == Some(rest@),
            None => after_prefix(s@, prefix@) is None,
        },
{
    let bytes: &[u8] = s.as_bytes();
    let head: &[u8] = prefix.as_bytes();
    let n: usize = head.len();
    proof {
        if prefix@.is_prefix_of(s@) {
            assert(s@ =~= prefix@ + s@.skip(prefix@.len() as int));
            lemma_encode_concat(prefix@, s@.skip(prefix@.len() as int));
        }
    }
    if bytes.len() < n {
        return None;
    }
    let mut i: usize = 0;
    while i < n
        invariant
            i <= n,
            n == head@.len(),
            n <= bytes@.len(),
            prefix@.is_prefix_of(s@) ==> head@.is_prefix_of(bytes@),
            forall|k: int| 0 <= k < i ==> bytes@[k] == head@[k],
        decreases n - i,
    {
        if bytes[i] != head[i] {
            return None;
        }
        i = i + 1;
    }
    proof {
        encode_utf8_valid_utf8(s@);
        is_ascii_chars_encode_utf8(prefix@);
        assert forall|k: int| 0 <= k < n implies #[trigger] bytes@[k] <= 0x7f by {
            assert(bytes@[k] == head@[k]);
            assert(prefix@[k] <= '\u{7f}');
        }
        lemma_ascii_boundary(bytes@, n as int);
    }
    let (left, right) = s.split_at(n);
    proof {
        assert(encode_utf8(left@) =~= head@);
        lemma_encode_injective(left@, prefix@);
        lemma_encode_concat(left@, right@);
        assert(bytes@ =~= encode_utf8(left@) + encode_utf8(right@));
        lemma_encode_injective(left@ + right@, s@);
        assert(s@.skip(prefix@.len() as int) =~= right@);
    }
    Some(right)
}

/// The characters of each of some string slices.
pub open spec fn chars_of(v: Seq<&str>) -> Seq<Seq<char>> {
    Seq::new(v.len(), |i: int| v[i]@)
}

/// Cuts `s` at every `c`, an ASCII character.
pub fn split_all<'a>(s: &'a str, c: char) -> (r: Vec<&'a str>)
    requires
        is_ascii_char(c),
    ensures
        chars_of(r@) == pieces(s@, c),
{
    let mut out: Vec<&'a str> = Vec::new();
    let mut rest: &'a str = s;
    loop
        invariant
            is_ascii_char(c),
            chars_of(out@) + pieces(rest@, c) == pieces(s@, c),
        decreases rest@.len(),
    {
        proof {
            lemma_cut_parts(rest@, c);
        }
        let ghost before = chars_of(out@);
        match split_once(rest, c) {
            Some((piece, tail)) => {
                out.push(piece);
                proof {
                    assert(chars_of(out@) =~= before.push(piece@));
                    assert(chars_of(out@) + pieces(tail@, c) =~= before + pieces(rest@, c));
                }
                rest = tail;
            },
            None => {
                out.push(rest);
                proof {
                    assert(chars_of(out@) =~= before + pieces(rest@, c));
                }
                return out;
            },
        }
    }
}

/// The strings of `list`, with a `c` between each two.
pub open spec fn joined(list: Seq<Seq<char>>, c: char) -> Seq<char>
    decreases list.len(),
{
    if list.len() == 0 {
        seq![]
    } else if list.len() == 1 {
        list[0]
    } else {
        list[0].push(c) + joined(list.drop_first(), c)
    }
}

/// Joining one string more appends a separator and that string.
pub proof fn lemma_joined_push(list: Seq<Seq<char>>, c: char, last: Seq<char>)
    requires
        list.len() > 0,
    ensures
        joined(list.push(last), c) == joined(list, c).push(c) + last,
    decreases list.len(),
{
    let longer = list.push(last);
    if list.len() == 1 {
        assert(longer.drop_first() =~= seq![last]);
        assert(joined(longer.drop_first(), c) == last);
    } else {
        lemma_joined_push(list.drop_first(), c, last);
        assert(longer.drop_first() =~= list.drop_first().push(last));
        assert(joined(longer, c) =~= joined(list, c).push(c) + last);
    }
}

/// Cutting what was joined gives the strings back, where none of them holds
/// the separator.
pub proof fn lemma_pieces_joined(list: Seq<Seq<char>>, c: char)
    requires
        list.len() > 0,
        forall|i: int| 0 <= i < list.len() ==> !(#[trigger] list[i]).contains(c),
    ensures
        pieces(joined(list, c), c) == list,
    decreases list.len(),
{
    assert(!list[0].contains(c));
    if list.len() == 1 {
        lemma_cut_parts(list[0], c);
        assert(pieces(joined(list, c), c) =~= list);
    } else {
        let rest = list.drop_first();
        assert forall|i: int| 0 <= i < rest.len() implies !(#[trigger] rest[i]).contains(c) by {
            assert(rest[i] == list[i + 1]);
        }
        lemma_pieces_joined(rest, c);
        lemma_cut(list[0], c, joined(rest, c));
        assert(pieces(joined(list, c), c) =~= list);
    }
}

/// No piece holds the separator, and there is at least one.
pub proof fn lemma_pieces(s: Seq<char>, c: char)
    ensures
        pieces(s, c).len() > 0,
        forall|i: int| 0 <= i < pieces(s, c).len() ==> !(#[trigger] pieces(s, c)[i]).contains(c),
    decreases s.len(),
{
    lemma_cut_parts(s, c);
    if let Some((piece, rest)) = cut(s, c) {
        lemma_pieces(rest, c);
        assert forall|i: int| 0 <= i < pieces(s, c).len() implies !(#[trigger] pieces(
            s,
            c,
        )[i]).contains(c) by {
            if i > 0 {
                assert(pieces(s, c)[i] == pieces(rest, c)[i - 1]);
            }
        }
    }
}

/// The decimal digit of a value below 10.
pub open spec fn decimal_digit(value: int) -> char {
    ('0' as int + value) as char
}

/// `n` in decimal, without leading zeros.
pub open spec fn decimal_chars(n: nat) -> Seq<char>
    decreases n,
{
    if n < 10 {
        seq![decimal_digit(n as int)]
    } else {
        decimal_chars(n / 10).push(decimal_digit((n % 10) as int))
    }
}

/// Writes `n` in decimal.
pub fn decimal(n: usize) -> (s: String)
    ensures
        s@ == decimal_chars(n as nat),
    decreases n,
{
    let digit: &str = match n % 10 {
        0 => "0",
        1 => "1",
        2 => "2",
        3 => "3",
        4 => "4",
        5 => "5",
        6 => "6",
        7 => "7",
        8 => "8",
        _ => "9",
    };
    proof {
        reveal_strlit("0");
        reveal_strlit("1");
        reveal_strlit("2");
        reveal_strlit("3");
        reveal_strlit("4");
        reveal_strlit("5");
        reveal_strlit("6");
        reveal_strlit("7");
        reveal_strlit("8");
        reveal_strlit("9");
        assert(digit@ =~= seq![decimal_digit((n % 10) as int)]);
    }
    if n < 10 {
        return digit.to_owned();
    }
    let s: String = decimal(n / 10).concat(digit);
    proof {
        assert(s@ =~= decimal_chars(n as nat));
    }
    s
}

/// The number that decimal digits stand for.
pub open spec fn decimal_value(digits: Seq<char>) -> int
    decreases digits.len(),
{
    if digits.len() == 0 {
        0
    } else {
        10 * decimal_value(digits.drop_last()) + (digits.last() as int - '0' as int)
    }
}

/// A number in decimal is made of decimal digits, without a leading zero, and
/// stands for that number.
pub proof fn law_decimal(n: nat)
    ensures
        decimal_value(decimal_chars(n)) == n,
        decimal_chars(n).len() > 0,
        forall|i: int|
            0 <= i < decimal_chars(n).len() ==> '0' <= #[trigger] decimal_chars(n)[i] <= '9',
        n > 0 ==> decimal_chars(n)[0] != '0',
    decreases n,
{
    reveal_with_fuel(decimal_value, 2);
    let s = decimal_chars(n);
    if n >= 10 {
        law_decimal(n / 10);
        assert(s.drop_last() =~= decimal_chars(n / 10));
    } else {
        assert(s.drop_last() =~= Seq::<char>::empty());
    }
}

/// Cutting at the first separator: the part before it holds none, and the two
/// parts and the separator make up the string. Without one nothing is cut.
pub proof fn law_cut(s: Seq<char>, c: char)
    ensures
        match cut(s, c) {
            Some((left, right)) => !left.contains(c) && s == left + seq![c] + right,
            None => !s.contains(c),
        },
{
    lemma_cut_parts(s, c);
    if let Some((left, right)) = cut(s, c) {
        assert(left.push(c) + right =~= left + seq![c] + right);
    }
}

/// Stripping a prefix: the prefix and what follows it make up the string.
pub proof fn law_after_prefix(s: Seq<char>, prefix: Seq<char>)
    ensures
        match after_prefix(s, prefix) {
            Some(rest) => s == prefix + rest,
            None => !prefix.is_prefix_of(s),
        },
{
    if let Some(rest) = after_prefix(s, prefix) {
        assert(s =~= prefix + rest);
    }
}

/// The pieces hold no separator and, joined by it, make up the string.
pub proof fn law_pieces(s: Seq<char>, c: char)
    ensures
        pieces(s, c).len() > 0,
        forall|i: int| 0 <= i < pieces(s, c).len() ==> !(#[trigger] pieces(s, c)[i]).contains(c),
        joined(pieces(s, c), c) == s,
    decreases s.len(),
{
    lemma_pieces(s, c);
    lemma_cut_parts(s, c);
    if let Some((piece, rest)) = cut(s, c) {
        law_pieces(rest, c);
        assert(pieces(s, c).drop_first() =~= pieces(rest, c));
    }
}

} // verus!
