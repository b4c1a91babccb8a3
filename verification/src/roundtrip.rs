use vstd::prelude::*;

use crate::codec::dec_int;
use crate::codec::dec_nat;
use crate::codec::encode_event;
use crate::codec::encode_list;
use crate::codec::encode_log;
use crate::codec::encode_more;
use crate::event::ClickEvent;
use crate::parser::decode_log;
use crate::parser::digits_val;
use crate::parser::is_digit;
use crate::parser::lemma_digits_end_complete;
use crate::parser::lemma_pow10_vals;
use crate::parser::parse_event;
use crate::parser::parse_int;
use crate::parser::parse_list;
use crate::parser::parse_mag;
use crate::parser::parse_more;
use crate::parser::pow10;

verus! {

// Reading back what the encoder wrote gives back exactly what was written:
// the round trip through the persisted byte form loses nothing. The proof
// follows the grammar: digits first, then integers, events, lists, and the
// whole document.

/// Shape of an encoded magnitude: only digits, at least one of them, no
/// leading zero unless it is the single digit `0`.
proof fn lemma_dec_nat_shape(n: nat)
    ensures
        dec_nat(n).len() >= 1,
        forall|k: int| 0 <= k < dec_nat(n).len() ==> is_digit(dec_nat(n)[k]),
        n < 10 ==> dec_nat(n).len() == 1,
        n >= 1 ==> dec_nat(n)[0] != 48,
    decreases n,
{
    if n < 10 {
        assert(dec_nat(n) =~= seq![(48 + n) as u8]);
    } else {
        lemma_dec_nat_shape(n / 10);
        let pre = dec_nat(n / 10);
        assert(dec_nat(n) == pre.push((48 + n % 10) as u8));
        assert(dec_nat(n)[0] == pre[0]);
        assert forall|k: int| 0 <= k < dec_nat(n).len() implies is_digit(dec_nat(n)[k]) by {
            if k < pre.len() {
                assert(dec_nat(n)[k] == pre[k]);
            } else {
                assert(dec_nat(n)[k] == (48 + n % 10) as u8);
            }
        }
    }
}

/// An encoded magnitude below ten to the `k` takes at most `k` digits.
proof fn lemma_dec_nat_len(n: nat, k: nat)
    requires
        1 <= k,
        n < pow10(k),
    ensures
        dec_nat(n).len() <= k,
    decreases n,
{
    if n < 10 {
    } else {
        assert(pow10(k) == 10 * pow10((k - 1) as nat));
        if k == 1 {
            assert(pow10(0nat) == 1);
            assert(false);
        }
        assert(n / 10 < pow10((k - 1) as nat));
        lemma_dec_nat_len(n / 10, (k - 1) as nat);
    }
}

/// The value of an embedded run of encoded digits is the number encoded.
proof fn lemma_digits_val_of_dec(s: Seq<u8>, i: int, n: nat)
    requires
        0 <= i,
        i + dec_nat(n).len() <= s.len(),
        forall|k: int| 0 <= k < dec_nat(n).len() ==> s[i + k] == dec_nat(n)[k],
    ensures
        digits_val(s, i, i + dec_nat(n).len()) == n,
    decreases n,
{
    lemma_dec_nat_shape(n);
    if n < 10 {
        assert(dec_nat(n)[0] == (48 + n) as u8);
        assert(s[i + 0] == dec_nat(n)[0]);
        assert(digits_val(s, i, i + 1) == (digits_val(s, i, i) * 10 + (s[i] - 48)) as nat);
    } else {
        let pre = dec_nat(n / 10);
        let plen = pre.len() as int;
        assert(dec_nat(n) == pre.push((48 + n % 10) as u8));
        assert forall|k: int| 0 <= k < pre.len() implies s[i + k] == pre[k] by {
            assert(dec_nat(n)[k] == pre[k]);
            assert(s[i + k] == dec_nat(n)[k]);
        }
        lemma_digits_val_of_dec(s, i, n / 10);
        assert(dec_nat(n)[plen] == (48 + n % 10) as u8);
        assert(s[i + plen] == dec_nat(n)[plen]);
        assert(digits_val(s, i, i + plen + 1) == (digits_val(s, i, i + plen) * 10 + (s[i + plen]
            - 48)) as nat);
        assert(digits_val(s, i, i + plen + 1) == (n / 10) * 10 + n % 10);
    }
}

/// An embedded encoded magnitude, followed by a non-digit or the end,
/// reads back as itself.
proof fn lemma_read_mag(s: Seq<u8>, i: int, n: nat)
    requires
        0 <= i,
        n <= 4294967295,
        i + dec_nat(n).len() <= s.len(),
        forall|k: int| 0 <= k < dec_nat(n).len() ==> s[i + k] == dec_nat(n)[k],
        i + dec_nat(n).len() == s.len() || !is_digit(s[i + dec_nat(n).len()]),
    ensures
        parse_mag(s, i) == Some((n, i + dec_nat(n).len() as int)),
{
    lemma_dec_nat_shape(n);
    let dn = dec_nat(n);
    let e: int = i + dn.len();
    assert forall|t: int| i <= t < e implies is_digit(s[t]) by {
        assert(is_digit(dn[t - i]));
        assert(s[i + (t - i)] == dn[t - i]);
    }
    lemma_digits_end_complete(s, i, e);
    lemma_pow10_vals();
    lemma_dec_nat_len(n, 10);
    if dn.len() > 1 {
        assert(n >= 1) by {
            if n == 0 {
                assert(dec_nat(0nat).len() == 1);
            }
        }
        assert(s[i + 0] == dn[0]);
        assert(s[i] != 48);
    }
    lemma_digits_val_of_dec(s, i, n);
}

/// An embedded encoded integer, followed by a non-digit or the end, reads
/// back as itself.
proof fn lemma_read_int_enc(s: Seq<u8>, i: int, v: int)
    requires
        -2147483648 <= v <= 2147483647,
        0 <= i,
        i + dec_int(v).len() <= s.len(),
        forall|k: int| 0 <= k < dec_int(v).len() ==> s[i + k] == dec_int(v)[k],
        i + dec_int(v).len() == s.len() || !is_digit(s[i + dec_int(v).len()]),
    ensures
        parse_int(s, i) == Some((v, i + dec_int(v).len() as int)),
{
    if v < 0 {
        let m = (-v) as nat;
        let dn = dec_nat(m);
        assert(dec_int(v) == seq![45u8] + dn);
        assert(dec_int(v).len() == 1 + dn.len());
        assert(dec_int(v)[0] == 45);
        assert(s[i + 0] == dec_int(v)[0]);
        assert forall|k: int| 0 <= k < dn.len() implies s[(i + 1) + k] == dn[k] by {
            assert(dec_int(v)[1 + k] == dn[k]);
            assert(s[i + (1 + k)] == dec_int(v)[1 + k]);
        }
        lemma_read_mag(s, i + 1, m);
        assert(parse_mag(s, i + 1) == Some((m, i + 1 + dn.len() as int)));
    } else {
        assert(dec_int(v) == dec_nat(v as nat));
        lemma_dec_nat_shape(v as nat);
        assert(s[i + 0] == dec_int(v)[0]);
        assert(is_digit(s[i]));
        assert(s[i] != 45);
        lemma_read_mag(s, i, v as nat);
    }
}

/// An embedded encoded event reads back as itself.
proof fn lemma_read_event_enc(s: Seq<u8>, i: int, ev: ClickEvent)
    requires
        0 <= i,
        i + encode_event(ev).len() <= s.len(),
        forall|k: int| 0 <= k < encode_event(ev).len() ==> s[i + k] == encode_event(ev)[k],
    ensures
        parse_event(s, i) == Some((ev, i + encode_event(ev).len() as int)),
{
    let enc = encode_event(ev);
    match ev {
        ClickEvent::Click(x, y) => {
            let dx = dec_int(x as int);
            let dy = dec_int(y as int);
            assert(enc.len() == 10 + dx.len() + 1 + dy.len() + 2);
            assert(s[i + 0] == enc[0] && enc[0] == 123);
            assert(s[i + 1] == enc[1] && enc[1] == 34);
            assert(s[i + 2] == enc[2] && enc[2] == 67);
            assert(s[i + 3] == enc[3] && enc[3] == 108);
            assert(s[i + 4] == enc[4] && enc[4] == 105);
            assert(s[i + 5] == enc[5] && enc[5] == 99);
            assert(s[i + 6] == enc[6] && enc[6] == 107);
            assert(s[i + 7] == enc[7] && enc[7] == 34);
            assert(s[i + 8] == enc[8] && enc[8] == 58);
            assert(s[i + 9] == enc[9] && enc[9] == 91);
            assert forall|k: int| 0 <= k < dx.len() implies s[(i + 10) + k] == dx[k] by {
                assert(enc[10 + k] == dx[k]);
                assert(s[i + (10 + k)] == enc[10 + k]);
            }
            let j: int = i + 10 + dx.len();
            assert(s[i + (10 + dx.len() as int)] == enc[10 + dx.len() as int]);
            assert(enc[10 + dx.len() as int] == 44);
            assert(!is_digit(s[j]));
            lemma_read_int_enc(s, i + 10, x as int);
            assert forall|k: int| 0 <= k < dy.len() implies s[(j + 1) + k] == dy[k] by {
                assert(enc[11 + dx.len() + k] == dy[k]);
                assert(s[i + (11 + dx.len() + k)] == enc[11 + dx.len() + k]);
            }
            let j2: int = j + 1 + dy.len();
            assert(s[i + (11 + dx.len() + dy.len() as int)] == enc[11 + dx.len() + dy.len() as int]);
            assert(enc[11 + dx.len() + dy.len() as int] == 93);
            assert(s[j2] == 93);
            assert(!is_digit(s[j2]));
            lemma_read_int_enc(s, j + 1, y as int);
            assert(s[i + (12 + dx.len() + dy.len() as int)] == enc[12 + dx.len() + dy.len() as int]);
            assert(enc[12 + dx.len() + dy.len() as int] == 125);
            assert(s[j2 + 1] == 125);
            assert(parse_int(s, i + 10) == Some((x as int, j)));
            assert(parse_int(s, j + 1) == Some((y as int, j2)));
            assert(j2 + 2 == i + enc.len());
        },
        ClickEvent::Wait(d) => {
            let dd = dec_int(d as int);
            assert(enc.len() == 8 + dd.len() + 1);
            assert(s[i + 0] == enc[0] && enc[0] == 123);
            assert(s[i + 1] == enc[1] && enc[1] == 34);
            assert(s[i + 2] == enc[2] && enc[2] == 87);
            assert(s[i + 3] == enc[3] && enc[3] == 97);
            assert(s[i + 4] == enc[4] && enc[4] == 105);
            assert(s[i + 5] == enc[5] && enc[5] == 116);
            assert(s[i + 6] == enc[6] && enc[6] == 34);
            assert(s[i + 7] == enc[7] && enc[7] == 58);
            assert forall|k: int| 0 <= k < dd.len() implies s[(i + 8) + k] == dd[k] by {
                assert(enc[8 + k] == dd[k]);
                assert(s[i + (8 + k)] == enc[8 + k]);
            }
            let j: int = i + 8 + dd.len();
            assert(s[i + (8 + dd.len() as int)] == enc[8 + dd.len() as int]);
            assert(enc[8 + dd.len() as int] == 125);
            assert(s[j] == 125);
            assert(!is_digit(s[j]));
            lemma_read_int_enc(s, i + 8, d as int);
            assert(parse_int(s, i + 8) == Some((d as int, j)));
            assert(j + 1 == i + enc.len());
        },
    }
}

/// The first byte of every encoded event is the opening brace.
proof fn lemma_encode_event_first(ev: ClickEvent)
    ensures
        encode_event(ev).len() >= 1,
        encode_event(ev)[0] == 123,
{
    match ev {
        ClickEvent::Click(x, y) => {
            assert(encode_event(ev)[0] == 123);
        },
        ClickEvent::Wait(d) => {
            assert(encode_event(ev)[0] == 123);
        },
    }
}

/// An embedded encoded event tail (each event preceded by a comma),
/// followed by the closing bracket, reads back as itself.
proof fn lemma_read_more_enc(s: Seq<u8>, i: int, l: Seq<ClickEvent>)
    requires
        0 <= i,
        i + encode_more(l).len() < s.len(),
        forall|k: int| 0 <= k < encode_more(l).len() ==> s[i + k] == encode_more(l)[k],
        s[i + encode_more(l).len()] == 93,
    ensures
        parse_more(s, i) == Some((l, i + encode_more(l).len() as int)),
    decreases l.len(),
{
    let enc = encode_more(l);
    if l.len() == 0 {
        assert(s[i] == 93);
    } else {
        let ee = encode_event(l[0]);
        let rest = encode_more(l.drop_first());
        assert(enc == seq![44u8] + ee + rest);
        assert(enc.len() == 1 + ee.len() + rest.len());
        assert(s[i + 0] == enc[0] && enc[0] == 44);
        assert forall|k: int| 0 <= k < ee.len() implies s[(i + 1) + k] == ee[k] by {
            assert(enc[1 + k] == ee[k]);
            assert(s[i + (1 + k)] == enc[1 + k]);
        }
        lemma_read_event_enc(s, i + 1, l[0]);
        let j: int = i + 1 + ee.len();
        assert forall|k: int| 0 <= k < rest.len() implies s[j + k] == rest[k] by {
            assert(enc[1 + ee.len() + k] == rest[k]);
            assert(s[i + (1 + ee.len() + k)] == enc[1 + ee.len() + k]);
        }
        assert(j + rest.len() == i + enc.len());
        assert(s[j + rest.len() as int] == 93);
        lemma_read_more_enc(s, j, l.drop_first());
        lemma_encode_event_first(l[0]);
        assert(parse_event(s, i + 1) == Some((l[0], j)));
        assert(seq![l[0]] + l.drop_first() =~= l);
    }
}

/// An embedded encoded event list, followed by the closing bracket, reads
/// back as itself.
proof fn lemma_read_list_enc(s: Seq<u8>, i: int, l: Seq<ClickEvent>)
    requires
        0 <= i,
        i + encode_list(l).len() < s.len(),
        forall|k: int| 0 <= k < encode_list(l).len() ==> s[i + k] == encode_list(l)[k],
        s[i + encode_list(l).len()] == 93,
    ensures
        parse_list(s, i) == Some((l, i + encode_list(l).len() as int)),
{
    let enc = encode_list(l);
    if l.len() == 0 {
        assert(s[i] == 93);
    } else {
        let ee = encode_event(l[0]);
        let rest = encode_more(l.drop_first());
        assert(enc == ee + rest);
        lemma_encode_event_first(l[0]);
        assert(s[i + 0] == enc[0]);
        assert(enc[0] == ee[0]);
        assert(s[i] == 123);
        assert(s[i] != 93);
        assert forall|k: int| 0 <= k < ee.len() implies s[i + k] == ee[k] by {
            assert(enc[k] == ee[k]);
            assert(s[i + k] == enc[k]);
        }
        lemma_read_event_enc(s, i, l[0]);
        let j: int = i + ee.len();
        assert forall|k: int| 0 <= k < rest.len() implies s[j + k] == rest[k] by {
            assert(enc[ee.len() + k] == rest[k]);
            assert(s[i + (ee.len() + k)] == enc[ee.len() + k]);
        }
        assert(j + rest.len() == i + enc.len());
        assert(s[j + rest.len() as int] == 93);
        lemma_read_more_enc(s, j, l.drop_first());
        assert(parse_event(s, i) == Some((l[0], j)));
        assert(seq![l[0]] + l.drop_first() =~= l);
    }
}

/// Round trip: decoding an encoded path gives back exactly that path,
/// whatever its events and however long it is.
pub proof fn lemma_round_trip(l: Seq<ClickEvent>)
    ensures
        decode_log(encode_log(l)) == Some(l),
{
    let s = encode_log(l);
    let el = encode_list(l);
    assert(s.len() == 11 + el.len() + 2);
    assert(s[0] == 123);
    assert(s[1] == 34);
    assert(s[2] == 99);
    assert(s[3] == 108);
    assert(s[4] == 105);
    assert(s[5] == 99);
    assert(s[6] == 107);
    assert(s[7] == 115);
    assert(s[8] == 34);
    assert(s[9] == 58);
    assert(s[10] == 91);
    assert forall|k: int| 0 <= k < el.len() implies s[11 + k] == el[k] by {
        assert(s[11 + k] == el[k]);
    }
    let k: int = 11 + el.len() as int;
    assert(s[k] == 93);
    assert(s[k + 1] == 125);
    lemma_read_list_enc(s, 11, l);
    assert(parse_list(s, 11) == Some((l, k)));
}

} // verus!
