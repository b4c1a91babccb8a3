use vstd::prelude::*;

use crate::event::ClickEvent;
use crate::event::ClickPath;

verus! {

// The persisted form of a path is a compact structured text document over
// ASCII bytes: one object with a single "clicks" field holding an ordered
// list of tagged events,
//
//     {"clicks":[{"Click":[10,20]},{"Wait":50}]}
//
// A click is tagged "Click" with a two-integer payload, a pause is tagged
// "Wait" with a one-integer payload, and integers are written in decimal
// with a leading '-' for negative values.

/// The byte of the decimal digit `d` (for `d < 10`).
pub open spec fn digit_byte(d: nat) -> u8 {
    (48 + d) as u8
}

/// Decimal digits of `n`, most significant first, no leading zeros
/// (`0` is written as the single digit `0`).
pub open spec fn dec_nat(n: nat) -> Seq<u8>
    decreases n,
{
    if n < 10 {
        seq![digit_byte(n)]
    } else {
        dec_nat(n / 10).push(digit_byte(n % 10))
    }
}

/// Decimal form of `v`: a '-' before the digits when `v` is negative.
pub open spec fn dec_int(v: int) -> Seq<u8> {
    if v < 0 {
        seq![45] + dec_nat((-v) as nat)
    } else {
        dec_nat(v as nat)
    }
}

/// The opening bytes of a click record: `{"Click":[`.
pub open spec fn click_tag() -> Seq<u8> {
    seq![123, 34, 67, 108, 105, 99, 107, 34, 58, 91]
}

/// The opening bytes of a wait record: `{"Wait":`.
pub open spec fn wait_tag() -> Seq<u8> {
    seq![123, 34, 87, 97, 105, 116, 34, 58]
}

/// The opening bytes of the whole document: `{"clicks":[`.
pub open spec fn doc_open() -> Seq<u8> {
    seq![123, 34, 99, 108, 105, 99, 107, 115, 34, 58, 91]
}

/// The encoding of one event.
pub open spec fn encode_event(e: ClickEvent) -> Seq<u8> {
    match e {
        ClickEvent::Click(x, y) => click_tag() + dec_int(x as int) + seq![44] + dec_int(
            y as int,
        ) + seq![93, 125],
        ClickEvent::Wait(d) => wait_tag() + dec_int(d as int) + seq![125],
    }
}

/// The comma-separated encoding of a whole event list.
pub open spec fn encode_list(s: Seq<ClickEvent>) -> Seq<u8>
    decreases s.len(),
{
    if s.len() == 0 {
        Seq::empty()
    } else {
        encode_event(s[0]) + encode_more(s.drop_first())
    }
}

/// The encoding of the events after the first: each one preceded by a comma.
pub open spec fn encode_more(s: Seq<ClickEvent>) -> Seq<u8>
    decreases s.len(),
{
    if s.len() == 0 {
        Seq::empty()
    } else {
        seq![44] + encode_event(s[0]) + encode_more(s.drop_first())
    }
}

/// The encoding of a whole path.
pub open spec fn encode_log(s: Seq<ClickEvent>) -> Seq<u8> {
    doc_open() + encode_list(s) + seq![93, 125]
}

/// Appends the decimal digits of `v` to `out`.
fn write_u32(out: &mut Vec<u8>, v: u32)
    ensures
        final(out)@ == old(out)@ + dec_nat(v as nat),
    decreases v,
{
    if v < 10 {
        out.push(48 + v as u8);
        assert(out@ =~= old(out)@ + dec_nat(v as nat));
    } else {
        write_u32(out, v / 10);
        out.push(48 + (v % 10) as u8);
        assert(out@ =~= old(out)@ + dec_nat(v as nat));
    }
}

/// Appends the decimal form of `v` to `out`.
fn write_i32(out: &mut Vec<u8>, v: i32)
    ensures
        final(out)@ == old(out)@ + dec_int(v as int),
{
    if v < 0 {
        out.push(45);
        let m: u32 = (-(v as i64)) as u32;
        assert(m == -(v as int));
        write_u32(out, m);
        assert(out@ =~= old(out)@ + dec_int(v as int));
    } else {
        write_u32(out, v as u32);
    }
}

/// Appends the encoding of one event to `out`.
fn write_event(out: &mut Vec<u8>, e: ClickEvent)
    ensures
        final(out)@ == old(out)@ + encode_event(e),
{
    match e {
        ClickEvent::Click(x, y) => {
            out.push(123);
            out.push(34);
            out.push(67);
            out.push(108);
            out.push(105);
            out.push(99);
            out.push(107);
            out.push(34);
            out.push(58);
            out.push(91);
            assert(out@ =~= old(out)@ + click_tag());
            write_i32(out, x);
            out.push(44);
            write_i32(out, y);
            out.push(93);
            out.push(125);
            assert(out@ =~= old(out)@ + encode_event(e));
        },
        ClickEvent::Wait(d) => {
            out.push(123);
            out.push(34);
            out.push(87);
            out.push(97);
            out.push(105);
            out.push(116);
            out.push(34);
            out.push(58);
            assert(out@ =~= old(out)@ + wait_tag());
            write_i32(out, d);
            out.push(125);
            assert(out@ =~= old(out)@ + encode_event(e));
        },
    }
}

/// `encode_list` of a sequence one event longer: the new event's encoding is
/// appended, preceded by a comma unless the sequence was empty.
proof fn lemma_encode_list_push(s: Seq<ClickEvent>, e: ClickEvent)
    ensures
        s.len() == 0 ==> encode_list(s.push(e)) == encode_event(e),
        s.len() > 0 ==> encode_list(s.push(e)) == encode_list(s) + seq![44] + encode_event(e),
    decreases s.len(),
{
    if s.len() == 0 {
        assert(s.push(e)[0] == e);
        assert(s.push(e).drop_first() =~= Seq::<ClickEvent>::empty());
        assert(encode_list(s.push(e)) =~= encode_event(e));
    } else {
        lemma_encode_more_push(s.drop_first(), e);
        assert(s.push(e).drop_first() =~= s.drop_first().push(e));
        assert(s.push(e)[0] == s[0]);
        assert(encode_list(s.push(e)) =~= encode_list(s) + seq![44] + encode_event(e));
    }
}

/// The same step for `encode_more`.
proof fn lemma_encode_more_push(s: Seq<ClickEvent>, e: ClickEvent)
    ensures
        encode_more(s.push(e)) == encode_more(s) + seq![44] + encode_event(e),
    decreases s.len(),
{
    if s.len() == 0 {
        assert(s.push(e)[0] == e);
        assert(s.push(e).drop_first() =~= Seq::<ClickEvent>::empty());
        assert(encode_more(s.push(e).drop_first()) == Seq::<u8>::empty());
        assert(encode_more(s.push(e)) =~= seq![44u8] + encode_event(e));
        assert(encode_more(s) + seq![44] + encode_event(e) =~= seq![44u8] + encode_event(e));
    } else {
        lemma_encode_more_push(s.drop_first(), e);
        assert(s.push(e).drop_first() =~= s.drop_first().push(e));
        assert(s.push(e)[0] == s[0]);
        assert(encode_more(s.push(e)) =~= encode_more(s) + seq![44] + encode_event(e));
    }
}

/// Encodes a whole path into the persisted byte form.
pub fn serialize(path: &ClickPath) -> (r: Vec<u8>)
    ensures
        r@ == encode_log(path@),
{
    let mut out: Vec<u8> = Vec::new();
    out.push(123);
    out.push(34);
    out.push(99);
    out.push(108);
    out.push(105);
    out.push(99);
    out.push(107);
    out.push(115);
    out.push(34);
    out.push(58);
    out.push(91);
    assert(out@ =~= doc_open());
    let n = path.clicks.len();
    let mut i: usize = 0;
    while i < n
        invariant
            n == path@.len(),
            i <= n,
            out@ == doc_open() + encode_list(path@.subrange(0, i as int)),
        decreases n - i,
    {
        proof {
            lemma_encode_list_push(path@.subrange(0, i as int), path@[i as int]);
            assert(path@.subrange(0, i as int).push(path@[i as int]) =~= path@.subrange(
                0,
                i as int + 1,
            ));
        }
        if i > 0 {
            out.push(44);
        }
        write_event(&mut out, path.clicks[i]);
        proof {
            if i == 0 {
                assert(path@.subrange(0, 0) =~= Seq::<ClickEvent>::empty());
                assert(out@ =~= doc_open() + encode_list(path@.subrange(0, 1)));
            } else {
                assert(out@ =~= doc_open() + encode_list(path@.subrange(0, i as int + 1)));
            }
        }
        i = i + 1;
    }
    out.push(93);
    out.push(125);
    proof {
        assert(path@.subrange(0, n as int) =~= path@);
        assert(out@ =~= encode_log(path@));
    }
    out
}

} // verus!
