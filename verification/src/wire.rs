//! The RESP wire format, as mathematics: decimal tokens, CRLF-terminated
//! header lines, and the canonical encoding of every message.
use vstd::prelude::*;

use crate::parser::MessageModel;

verus! {

pub const CR: u8 = 13;

pub const LF: u8 = 10;

/// The leading tag byte of each message kind.
pub const TAG_SIMPLE: u8 = 43;

pub const TAG_ERROR: u8 = 45;

pub const TAG_INTEGER: u8 = 58;

pub const TAG_BULK: u8 = 36;

pub const TAG_ARRAY: u8 = 42;

/// The two-byte line terminator.
pub open spec fn crlf() -> Seq<u8> {
    seq![CR, LF]
}

pub open spec fn is_ascii_digit(b: u8) -> bool {
    48 <= b <= 57
}

pub open spec fn digit_val(b: u8) -> int {
    b - 48
}

pub open spec fn all_digits(s: Seq<u8>) -> bool {
    forall|i: int| 0 <= i < s.len() ==> is_ascii_digit(#[trigger] s[i])
}

/// The value of a string of decimal digits, most significant first.
pub open spec fn dec_value(s: Seq<u8>) -> int
    decreases s.len(),
{
    if s.len() == 0 {
        0
    } else {
        dec_value(s.subrange(0, s.len() - 1)) * 10 + digit_val(s[s.len() - 1])
    }
}

/// The canonical decimal digits of a non-negative integer.
pub open spec fn dec_repr(n: nat) -> Seq<u8>
    decreases n,
{
    if n < 10 {
        seq![(48 + n) as u8]
    } else {
        dec_repr(n / 10).push((48 + n % 10) as u8)
    }
}

/// The canonical decimal form of an integer: a minus sign for negatives,
/// then the digits.
pub open spec fn int_repr(n: int) -> Seq<u8> {
    if n < 0 {
        seq![TAG_ERROR].add(dec_repr((-n) as nat))
    } else {
        dec_repr(n as nat)
    }
}

/// The digits of a token, the optional single leading sign stripped.
pub open spec fn token_digits(s: Seq<u8>) -> Seq<u8> {
    if s.len() > 0 && (s[0] == 43 || s[0] == 45) {
        s.subrange(1, s.len() as int)
    } else {
        s
    }
}

pub open spec fn token_negative(s: Seq<u8>) -> bool {
    s.len() > 0 && s[0] == 45
}

/// The integer a token denotes, ignoring whether it fits any machine type.
pub open spec fn token_value(s: Seq<u8>) -> int {
    if token_negative(s) {
        -dec_value(token_digits(s))
    } else {
        dec_value(token_digits(s))
    }
}

/// Whether a header line is a valid signed 64-bit decimal token: an optional
/// sign, at least one digit, nothing else, and a value in the `i64` range.
pub open spec fn is_int_token(s: Seq<u8>) -> bool {
    &&& token_digits(s).len() > 0
    &&& all_digits(token_digits(s))
    &&& i64::MIN <= token_value(s) <= i64::MAX
}

/// Whether the two bytes at `i` are CR LF.
pub open spec fn crlf_at(s: Seq<u8>, i: int) -> bool {
    0 <= i && i + 2 <= s.len() && s[i] == CR && s[i + 1] == LF
}

/// The position of the first CR LF pair at or after `pos`, or -1 if none.
pub open spec fn find_crlf(s: Seq<u8>, pos: int) -> int
    decreases s.len() - pos,
{
    if 0 <= pos && pos + 2 <= s.len() {
        if s[pos] == CR && s[pos + 1] == LF {
            pos
        } else {
            find_crlf(s, pos + 1)
        }
    } else {
        -1
    }
}

/// What `find_crlf` returns: -1 exactly when no CR LF pair remains, and
/// otherwise the first such pair.
pub proof fn lemma_find_crlf(s: Seq<u8>, pos: int)
    requires
        0 <= pos <= s.len(),
    ensures
        find_crlf(s, pos) == -1 || find_crlf(s, pos) >= pos,
        find_crlf(s, pos) == -1 ==> forall|j: int| pos <= j ==> !crlf_at(s, j),
        find_crlf(s, pos) >= 0 ==> {
            &&& pos <= find_crlf(s, pos)
            &&& crlf_at(s, find_crlf(s, pos))
            &&& forall|j: int| pos <= j < find_crlf(s, pos) ==> !crlf_at(s, j)
        },
    decreases s.len() - pos,
{
    if pos + 2 <= s.len() && !(s[pos] == CR && s[pos + 1] == LF) {
        lemma_find_crlf(s, pos + 1);
    }
}

/// If the bytes from `pos` to `i` hold no CR LF pair and one stands at `i`,
/// then `i` is what `find_crlf` returns.
pub proof fn lemma_find_crlf_at(s: Seq<u8>, pos: int, i: int)
    requires
        0 <= pos <= i,
        crlf_at(s, i),
        forall|j: int| pos <= j < i ==> !crlf_at(s, j),
    ensures
        find_crlf(s, pos) == i,
    decreases i - pos,
{
    if pos < i {
        assert(!crlf_at(s, pos));
        lemma_find_crlf_at(s, pos + 1, i);
        assert(find_crlf(s, pos) == find_crlf(s, pos + 1));
    } else {
        assert(crlf_at(s, pos));
    }
}

/// Whether `pre` is an initial segment of `s`.
pub open spec fn is_prefix(pre: Seq<u8>, s: Seq<u8>) -> bool {
    pre.len() <= s.len() && pre == s.subrange(0, pre.len() as int)
}

/// The canonical digits: at least one of them, all decimal, denoting `n`.
pub proof fn lemma_dec_repr(n: nat)
    ensures
        dec_repr(n).len() >= 1,
        all_digits(dec_repr(n)),
        dec_value(dec_repr(n)) == n,
    decreases n,
{
    if n < 10 {
        let s = dec_repr(n);
        assert(s == seq![(48 + n) as u8]);
        assert(s.len() == 1);
        assert(s.subrange(0, 0) =~= Seq::<u8>::empty());
        assert(dec_value(s.subrange(0, 0)) == 0);
        assert(dec_value(s) == dec_value(s.subrange(0, 0)) * 10 + digit_val(s[0]));
        assert(digit_val(s[0]) == n);
    } else {
        lemma_dec_repr(n / 10);
        let d = dec_repr(n / 10);
        let whole = d.push((48 + n % 10) as u8);
        assert(whole.subrange(0, whole.len() - 1) =~= d);
        assert(dec_value(whole) == dec_value(d) * 10 + (n % 10));
        assert(dec_value(whole) == n) by {
            assert(n == 10 * (n / 10) + n % 10) by (nonlinear_arith);
        };
    }
}

/// The canonical form of any `i64` is a valid token denoting that integer,
/// and holds neither CR nor LF.
pub proof fn lemma_int_repr(n: int)
    requires
        i64::MIN <= n <= i64::MAX,
    ensures
        int_repr(n).len() >= 1,
        is_int_token(int_repr(n)),
        token_value(int_repr(n)) == n,
        forall|i: int|
            0 <= i < int_repr(n).len() ==> #[trigger] int_repr(n)[i] != CR && int_repr(n)[i] != LF,
{
    if n < 0 {
        lemma_dec_repr((-n) as nat);
        let s = int_repr(n);
        assert(s[0] == 45);
        assert(token_digits(s) =~= dec_repr((-n) as nat));
    } else {
        lemma_dec_repr(n as nat);
        let s = int_repr(n);
        assert(is_ascii_digit(s[0]));
        assert(token_digits(s) == s);
    }
}

/// The canonical encoding of a message.
pub open spec fn encode_msg(m: MessageModel) -> Seq<u8>
    decreases m,
{
    match m {
        MessageModel::SimpleString(s) => seq![TAG_SIMPLE].add(s).add(crlf()),
        MessageModel::Error(s) => seq![TAG_ERROR].add(s).add(crlf()),
        MessageModel::Integer(n) => seq![TAG_INTEGER].add(int_repr(n)).add(crlf()),
        MessageModel::BulkString(b) => seq![TAG_BULK].add(int_repr(b.len() as int)).add(
            crlf(),
        ).add(b).add(crlf()),
        MessageModel::Array(elems) => seq![TAG_ARRAY].add(int_repr(elems.len() as int)).add(
            crlf(),
        ).add(encode_elems(elems)),
        MessageModel::Null => seq![TAG_BULK].add(int_repr(-1)).add(crlf()),
    }
}

/// The encodings of a sequence of messages, one after the other.
pub open spec fn encode_elems(elems: Seq<MessageModel>) -> Seq<u8>
    decreases elems,
{
    if elems.len() == 0 {
        Seq::<u8>::empty()
    } else {
        encode_msg(elems[0]).add(encode_elems(elems.subrange(1, elems.len() as int)))
    }
}

/// Which messages the encoding round-trips on: header text free of CR and LF,
/// and lengths that fit the signed 64-bit header fields.
pub open spec fn msg_wf(m: MessageModel) -> bool
    decreases m,
{
    match m {
        MessageModel::SimpleString(s) => forall|i: int|
            0 <= i < s.len() ==> #[trigger] s[i] != CR && s[i] != LF,
        MessageModel::Error(s) => forall|i: int|
            0 <= i < s.len() ==> #[trigger] s[i] != CR && s[i] != LF,
        MessageModel::Integer(n) => i64::MIN <= n <= i64::MAX,
        MessageModel::BulkString(b) => b.len() <= i64::MAX,
        MessageModel::Array(elems) => elems.len() <= i64::MAX && forall|i: int|
            0 <= i < elems.len() ==> msg_wf(#[trigger] elems[i]),
        MessageModel::Null => true,
    }
}

/// Splitting the encoding of a message sequence at any element boundary.
pub proof fn lemma_encode_elems_decompose(elems: Seq<MessageModel>, k: int)
    requires
        0 <= k < elems.len(),
    ensures
        encode_elems(elems) == encode_elems(elems.subrange(0, k)).add(encode_msg(elems[k])).add(
            encode_elems(elems.subrange(k + 1, elems.len() as int)),
        ),
    decreases k,
{
    let n = elems.len() as int;
    if k == 0 {
        assert(elems.subrange(0, 0) =~= Seq::<MessageModel>::empty());
        assert(encode_elems(elems) == encode_msg(elems[0]).add(encode_elems(elems.subrange(1, n))));
        assert(encode_elems(elems) =~= encode_elems(elems.subrange(0, 0)).add(
            encode_msg(elems[0]),
        ).add(encode_elems(elems.subrange(1, n))));
    } else {
        let rest = elems.subrange(1, n);
        lemma_encode_elems_decompose(rest, k - 1);
        assert(rest.subrange(0, k - 1) =~= elems.subrange(1, k));
        assert(rest[k - 1] == elems[k]);
        assert(rest.subrange(k, rest.len() as int) =~= elems.subrange(k + 1, n));
        lemma_encode_elems_step(elems, k);
        assert(encode_elems(elems) =~= encode_elems(elems.subrange(0, k)).add(
            encode_msg(elems[k]),
        ).add(encode_elems(elems.subrange(k + 1, n))));
    }
}

/// A prefix of a message sequence encodes to a prefix of its encoding:
/// adding the next element appends that element's encoding.
pub proof fn lemma_encode_elems_step(elems: Seq<MessageModel>, k: int)
    requires
        0 < k <= elems.len(),
    ensures
        encode_elems(elems.subrange(0, k)) == encode_msg(elems[0]).add(
            encode_elems(elems.subrange(1, k)),
        ),
{
    let head = elems.subrange(0, k);
    assert(head[0] == elems[0]);
    assert(head.subrange(1, k) =~= elems.subrange(1, k));
}

/// Extending the encoded prefix by one element.
pub proof fn lemma_encode_elems_extend(elems: Seq<MessageModel>, k: int)
    requires
        0 <= k < elems.len(),
    ensures
        encode_elems(elems.subrange(0, k + 1)) == encode_elems(elems.subrange(0, k)).add(
            encode_msg(elems[k]),
        ),
    decreases k,
{
    let n = elems.len() as int;
    if k == 0 {
        assert(elems.subrange(0, 0) =~= Seq::<MessageModel>::empty());
        let one = elems.subrange(0, 1);
        assert(one[0] == elems[0]);
        assert(one.subrange(1, 1) =~= Seq::<MessageModel>::empty());
        assert(encode_elems(one) =~= encode_elems(elems.subrange(0, 0)).add(encode_msg(elems[0])));
    } else {
        let rest = elems.subrange(1, n);
        lemma_encode_elems_extend(rest, k - 1);
        assert(rest.subrange(0, k) =~= elems.subrange(1, k + 1));
        assert(rest.subrange(0, k - 1) =~= elems.subrange(1, k));
        assert(rest[k - 1] == elems[k]);
        lemma_encode_elems_step(elems, k + 1);
        lemma_encode_elems_step(elems, k);
        assert(encode_elems(elems.subrange(0, k + 1)) =~= encode_elems(elems.subrange(0, k)).add(
            encode_msg(elems[k]),
        ));
    }
}

/// The whole sequence is its own encoded prefix.
pub proof fn lemma_encode_elems_all(elems: Seq<MessageModel>)
    ensures
        encode_elems(elems.subrange(0, elems.len() as int)) == encode_elems(elems),
{
    assert(elems.subrange(0, elems.len() as int) =~= elems);
}

/// A digit string has a non-negative value.
pub proof fn lemma_dec_value_nonneg(s: Seq<u8>)
    requires
        all_digits(s),
    ensures
        dec_value(s) >= 0,
    decreases s.len(),
{
    if s.len() > 0 {
        let pre = s.subrange(0, s.len() - 1);
        assert(all_digits(pre));
        lemma_dec_value_nonneg(pre);
    }
}

/// Appending a digit multiplies the value by ten and adds the digit.
pub proof fn lemma_dec_value_push(s: Seq<u8>, b: u8)
    ensures
        dec_value(s.push(b)) == dec_value(s) * 10 + digit_val(b),
{
    let w = s.push(b);
    assert(w.subrange(0, w.len() - 1) =~= s);
    assert(w[w.len() - 1] == b);
}

/// Reading more digits never shrinks the value.
pub proof fn lemma_dec_value_mono(s: Seq<u8>, k: int)
    requires
        0 <= k <= s.len(),
        all_digits(s),
    ensures
        dec_value(s.subrange(0, k)) <= dec_value(s),
    decreases s.len() - k,
{
    if k < s.len() {
        lemma_dec_value_mono(s, k + 1);
        let a = s.subrange(0, k);
        let b = s.subrange(0, k + 1);
        assert(b.subrange(0, b.len() - 1) =~= a);
        assert(all_digits(a));
        lemma_dec_value_nonneg(a);
        assert(b[k] == s[k]);
        assert(is_ascii_digit(s[k]));
        assert(dec_value(b) == dec_value(a) * 10 + digit_val(b[k]));
        assert(dec_value(a) <= dec_value(a) * 10 + digit_val(b[k]));
    } else {
        assert(s.subrange(0, s.len() as int) =~= s);
    }
}

/// A prefix made of two parts: the first part is a prefix, and the second is
/// a prefix of what follows the first.
pub proof fn lemma_prefix_parts(x: Seq<u8>, y: Seq<u8>, s: Seq<u8>, c: int)
    requires
        0 <= c <= s.len(),
        is_prefix(x.add(y), s.subrange(c, s.len() as int)),
    ensures
        c + x.len() + y.len() <= s.len(),
        is_prefix(x, s.subrange(c, s.len() as int)),
        is_prefix(y, s.subrange(c + x.len(), s.len() as int)),
        s.subrange(c, c + x.len() as int) == x,
        forall|i: int| 0 <= i < x.len() ==> s[c + i] == #[trigger] x[i],
{
    let t = s.subrange(c, s.len() as int);
    let xy = x.add(y);
    assert(forall|i: int| 0 <= i < xy.len() ==> xy[i] == t[i]);
    assert(x =~= t.subrange(0, x.len() as int));
    assert(s.subrange(c, c + x.len() as int) =~= x);
    assert forall|i: int| 0 <= i < y.len() implies #[trigger] y[i] == s[c + x.len() + i] by {
        assert(xy[x.len() + i] == t[x.len() + i]);
        assert(xy[x.len() + i] == y[i]);
        assert(t[x.len() + i] == s[c + x.len() + i]);
    };
    assert(y =~= s.subrange(c + x.len(), s.len() as int).subrange(0, y.len() as int));
    assert forall|i: int| 0 <= i < x.len() implies s[c + i] == #[trigger] x[i] by {
        assert(xy[i] == t[i]);
        assert(xy[i] == x[i]);
    };
}

/// Where a header line made of a clean token ends: the first CR LF after the
/// token stands right behind it.
pub proof fn lemma_header_line(s: Seq<u8>, c: int, tok: Seq<u8>)
    requires
        0 <= c <= s.len(),
        forall|i: int| 0 <= i < tok.len() ==> #[trigger] tok[i] != CR && tok[i] != LF,
        is_prefix(tok.add(crlf()), s.subrange(c, s.len() as int)),
    ensures
        c + tok.len() + 2 <= s.len(),
        find_crlf(s, c) == c + tok.len(),
        s.subrange(c, c + tok.len() as int) == tok,
{
    lemma_prefix_parts(tok, crlf(), s, c);
    let e = c + tok.len() as int;
    assert(s[e] == CR && s[e + 1] == LF) by {
        let u = s.subrange(e, s.len() as int);
        assert(crlf() == u.subrange(0, 2));
        assert(u[0] == s[e] && u[1] == s[e + 1]);
        assert(crlf()[0] == CR && crlf()[1] == LF);
    };
    assert(crlf_at(s, e));
    assert forall|j: int| c <= j < e implies !crlf_at(s, j) by {
        assert(s[j] == tok[j - c]);
        assert(tok[j - c] != CR);
    };
    lemma_find_crlf_at(s, c, e);
}

/// The tag byte that opens the encoding of each message kind.
pub open spec fn tag_of(m: MessageModel) -> u8 {
    match m {
        MessageModel::SimpleString(_) => TAG_SIMPLE,
        MessageModel::Error(_) => TAG_ERROR,
        MessageModel::Integer(_) => TAG_INTEGER,
        MessageModel::BulkString(_) => TAG_BULK,
        MessageModel::Array(_) => TAG_ARRAY,
        MessageModel::Null => TAG_BULK,
    }
}

pub open spec fn is_tag(b: u8) -> bool {
    b == TAG_SIMPLE || b == TAG_ERROR || b == TAG_INTEGER || b == TAG_BULK || b == TAG_ARRAY
}

/// Every encoding opens with its kind's tag byte and is at least three
/// bytes long.
pub proof fn lemma_encode_head(m: MessageModel)
    ensures
        encode_msg(m).len() >= 3,
        encode_msg(m)[0] == tag_of(m),
        is_tag(tag_of(m)),
{
    match m {
        MessageModel::SimpleString(_) => {}
        MessageModel::Error(_) => {}
        MessageModel::Integer(_) => {}
        MessageModel::BulkString(_) => {}
        MessageModel::Array(_) => {}
        MessageModel::Null => {}
    }
}

/// A truncated source held against a two-part pattern: either the first
/// part is fully present and the source continues into the second, or the
/// source ends inside the first part.
pub proof fn lemma_trunc_split(x: Seq<u8>, rest: Seq<u8>, s: Seq<u8>, c: int)
    requires
        0 <= c <= s.len(),
        is_prefix(s.subrange(c, s.len() as int), x.add(rest)),
    ensures
        s.len() - c >= x.len() ==> {
            &&& s.subrange(c, c + x.len() as int) == x
            &&& is_prefix(x, s.subrange(c, s.len() as int))
            &&& is_prefix(s.subrange(c + x.len(), s.len() as int), rest)
        },
        s.len() - c <= x.len() ==> is_prefix(s.subrange(c, s.len() as int), x),
{
    let t = s.subrange(c, s.len() as int);
    let xy = x.add(rest);
    assert forall|i: int| 0 <= i < t.len() implies t[i] == #[trigger] xy[i] by {
        assert(t[i] == xy.subrange(0, t.len() as int)[i]);
    };
    if s.len() - c >= x.len() {
        assert(s.subrange(c, c + x.len() as int) =~= x);
        assert(x =~= t.subrange(0, x.len() as int));
        let u = s.subrange(c + x.len(), s.len() as int);
        assert forall|i: int| 0 <= i < u.len() implies #[trigger] u[i] == rest[i] by {
            assert(u[i] == s[c + x.len() + i]);
            assert(t[x.len() + i] == xy[x.len() + i]);
            assert(xy[x.len() + i] == rest[i]);
        };
        assert(u =~= rest.subrange(0, u.len() as int));
    }
    if s.len() - c <= x.len() {
        assert forall|i: int| 0 <= i < t.len() implies t[i] == #[trigger] x.subrange(
            0,
            t.len() as int,
        )[i] by {
            assert(xy[i] == x[i]);
        };
        assert(t =~= x.subrange(0, t.len() as int));
    }
}

/// A source that ends inside a header line shows no CR LF pair at all.
pub proof fn lemma_truncated_header(s: Seq<u8>, c: int, tok: Seq<u8>)
    requires
        0 <= c <= s.len(),
        forall|i: int| 0 <= i < tok.len() ==> #[trigger] tok[i] != CR && tok[i] != LF,
        is_prefix(s.subrange(c, s.len() as int), tok.add(crlf())),
        s.len() - c < tok.len() + 2,
    ensures
        find_crlf(s, c) == -1,
{
    lemma_find_crlf(s, c);
    if find_crlf(s, c) >= 0 {
        let j = find_crlf(s, c);
        let t = s.subrange(c, s.len() as int);
        let xy = tok.add(crlf());
        assert(crlf_at(s, j));
        assert(c <= j && j + 2 <= s.len());
        assert(j - c < tok.len());
        assert(t[j - c] == xy.subrange(0, t.len() as int)[j - c]);
        assert(xy.subrange(0, t.len() as int)[j - c] == xy[j - c]);
        assert(xy[j - c] == tok[j - c]);
        assert(s[j] == t[j - c]);
        assert(false);
    }
}

} // verus!
