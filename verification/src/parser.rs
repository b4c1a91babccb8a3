use vstd::prelude::*;

use crate::event::ClickEvent;
use crate::event::ClickPath;

verus! {

// Reading the persisted byte form back. The grammar is exactly the one the
// encoder in `codec` produces: a strict reader is enough, because the file
// is only ever written by the encoder, and anything else is reported as
// malformed. Each spec function below is mirrored by an executable reader
// whose result is proved equal to it.

/// An ASCII decimal digit.
pub open spec fn is_digit(b: u8) -> bool {
    48 <= b && b <= 57
}

/// The first position at or after `i` that does not hold a digit.
pub open spec fn digits_end(s: Seq<u8>, i: int) -> int
    decreases s.len() - i when 0 <= i <= s.len()
{
    if i < s.len() && is_digit(s[i]) {
        digits_end(s, i + 1)
    } else {
        i
    }
}

/// The value of the digit run `s[i..j]`, most significant digit first.
pub open spec fn digits_val(s: Seq<u8>, i: int, j: int) -> nat
    decreases j - i when i <= j
{
    if j <= i {
        0
    } else {
        (digits_val(s, i, j - 1) * 10 + (s[j - 1] - 48)) as nat
    }
}

/// Ten to the `k`.
pub open spec fn pow10(k: nat) -> nat
    decreases k,
{
    if k == 0 {
        1
    } else {
        10 * pow10((k - 1) as nat)
    }
}

/// Where a digit run ends: every byte before it is a digit, and it stops at
/// the sequence's end or at the first non-digit.
pub proof fn lemma_digits_end_bounds(s: Seq<u8>, i: int)
    requires
        0 <= i <= s.len(),
    ensures
        i <= digits_end(s, i) <= s.len(),
        forall|t: int| i <= t < digits_end(s, i) ==> is_digit(s[t]),
        digits_end(s, i) == s.len() || !is_digit(s[digits_end(s, i)]),
    decreases s.len() - i,
{
    if i < s.len() && is_digit(s[i]) {
        lemma_digits_end_bounds(s, i + 1);
    }
}

/// A run of digits from `i` to `j`, with a non-digit (or the end) at `j`,
/// is exactly what `digits_end` finds.
pub proof fn lemma_digits_end_complete(s: Seq<u8>, i: int, j: int)
    requires
        0 <= i <= j <= s.len(),
        forall|t: int| i <= t < j ==> is_digit(s[t]),
        j == s.len() || !is_digit(s[j]),
    ensures
        digits_end(s, i) == j,
    decreases j - i,
{
    if i < j {
        assert(is_digit(s[i]));
        lemma_digits_end_complete(s, i + 1, j);
    }
}

/// `pow10` is monotone.
pub proof fn lemma_pow10_mono(a: nat, b: nat)
    requires
        a <= b,
    ensures
        pow10(a) <= pow10(b),
    decreases b,
{
    if a < b {
        lemma_pow10_mono(a, (b - 1) as nat);
        assert(pow10(b) == 10 * pow10((b - 1) as nat));
        assert(pow10((b - 1) as nat) >= 1) by {
            lemma_pow10_mono(0, (b - 1) as nat);
        }
    }
}

/// The concrete powers of ten the readers lean on.
pub proof fn lemma_pow10_vals()
    ensures
        pow10(9) == 1000000000,
        pow10(10) == 10000000000,
{
    assert(pow10(0) == 1);
    assert(pow10(1) == 10);
    assert(pow10(2) == 100);
    assert(pow10(3) == 1000);
    assert(pow10(4) == 10000);
    assert(pow10(5) == 100000);
    assert(pow10(6) == 1000000);
    assert(pow10(7) == 10000000);
    assert(pow10(8) == 100000000);
    assert(pow10(9) == 1000000000);
    assert(pow10(10) == 10000000000);
}

/// Reads an unsigned decimal magnitude at `i`: at least one digit, at most
/// ten, no leading zero. Yields the value and the position after it.
pub open spec fn parse_mag(s: Seq<u8>, i: int) -> Option<(nat, int)> {
    let e = digits_end(s, i);
    if e == i {
        None
    } else if e - i > 10 {
        None
    } else if s[i] == 48 && e - i > 1 {
        None
    } else {
        Some((digits_val(s, i, e), e))
    }
}

/// Reads a decimal integer in the range of `i32` at `i`, with an optional
/// leading '-'. A negative zero or an out-of-range value is malformed.
pub open spec fn parse_int(s: Seq<u8>, i: int) -> Option<(int, int)> {
    if 0 <= i && i < s.len() && s[i] == 45 {
        match parse_mag(s, i + 1) {
            Some((m, e)) => if 1 <= m && m <= 2147483648 {
                Some((-(m as int), e))
            } else {
                None
            },
            None => None,
        }
    } else {
        match parse_mag(s, i) {
            Some((m, e)) => if m <= 2147483647 {
                Some((m as int, e))
            } else {
                None
            },
            None => None,
        }
    }
}

/// Finds the end of the digit run starting at `i`.
fn scan_digits_end(data: &[u8], i: usize) -> (e: usize)
    requires
        i <= data@.len(),
    ensures
        e as int == digits_end(data@, i as int),
        i <= e <= data@.len(),
{
    let n = data.len();
    let mut j = i;
    while j < n && 48 <= data[j] && data[j] <= 57
        invariant
            i <= j <= n,
            n == data@.len(),
            digits_end(data@, i as int) == digits_end(data@, j as int),
        decreases n - j,
    {
        j = j + 1;
    }
    proof {
        assert(digits_end(data@, j as int) == j);
    }
    j
}

/// Reads a decimal `i32` at `i`, exactly as `parse_int` describes.
fn read_int(data: &[u8], i: usize) -> (r: Option<(i32, usize)>)
    requires
        i <= data@.len(),
    ensures
        match r {
            Some(ve) => parse_int(data@, i as int) == Some((ve.0 as int, ve.1 as int)) && i < ve.1
                <= data@.len(),
            None => parse_int(data@, i as int) is None,
        },
{
    let n = data.len();
    let neg = i < n && data[i] == 45;
    let start = if neg { i + 1 } else { i };
    let e = scan_digits_end(data, start);
    proof {
        lemma_digits_end_bounds(data@, start as int);
    }
    if e == start {
        return None;
    }
    if e - start > 10 {
        return None;
    }
    if data[start] == 48 && e - start > 1 {
        return None;
    }
    let mut val: u64 = 0;
    let mut k = start;
    while k < e
        invariant
            start <= k <= e,
            e <= n,
            n == data@.len(),
            e - start <= 10,
            forall|t: int| start <= t < e ==> is_digit(data@[t]),
            val == digits_val(data@, start as int, k as int),
            val < pow10((k - start) as nat),
        decreases e - k,
    {
        proof {
            lemma_pow10_mono((k - start) as nat, 9);
            lemma_pow10_vals();
            assert(is_digit(data@[k as int]));
        }
        let d = data[k] - 48;
        val = val * 10 + d as u64;
        k = k + 1;
    }
    proof {
        lemma_pow10_mono((e - start) as nat, 10);
        lemma_pow10_vals();
    }
    if neg {
        if val < 1 || val > 2147483648 {
            return None;
        }
        let m = val as i64;
        Some(((-m) as i32, e))
    } else {
        if val > 2147483647 {
            return None;
        }
        Some((val as i32, e))
    }
}

/// The bytes `{"Click":[` stand at `i`.
pub open spec fn has_click_tag(s: Seq<u8>, i: int) -> bool {
    0 <= i && i + 10 <= s.len() && s[i] == 123 && s[i + 1] == 34 && s[i + 2] == 67 && s[i + 3]
        == 108 && s[i + 4] == 105 && s[i + 5] == 99 && s[i + 6] == 107 && s[i + 7] == 34 && s[i + 8]
        == 58 && s[i + 9] == 91
}

/// The bytes `{"Wait":` stand at `i`.
pub open spec fn has_wait_tag(s: Seq<u8>, i: int) -> bool {
    0 <= i && i + 8 <= s.len() && s[i] == 123 && s[i + 1] == 34 && s[i + 2] == 87 && s[i + 3]
        == 97 && s[i + 4] == 105 && s[i + 5] == 116 && s[i + 6] == 34 && s[i + 7] == 58
}

/// The bytes `{"clicks":[` stand at `i`.
pub open spec fn has_doc_open(s: Seq<u8>, i: int) -> bool {
    0 <= i && i + 11 <= s.len() && s[i] == 123 && s[i + 1] == 34 && s[i + 2] == 99 && s[i + 3]
        == 108 && s[i + 4] == 105 && s[i + 5] == 99 && s[i + 6] == 107 && s[i + 7] == 115 && s[i
        + 8] == 34 && s[i + 9] == 58 && s[i + 10] == 91
}

/// Reads one tagged event at `i`: a click record `{"Click":[x,y]}` or a
/// wait record `{"Wait":d}`. Yields the event and the position after it.
pub open spec fn parse_event(s: Seq<u8>, i: int) -> Option<(ClickEvent, int)> {
    if has_click_tag(s, i) {
        match parse_int(s, i + 10) {
            Some((x, j)) => if j < s.len() && s[j] == 44 {
                match parse_int(s, j + 1) {
                    Some((y, k)) => if k + 2 <= s.len() && s[k] == 93 && s[k + 1] == 125 {
                        Some((ClickEvent::Click(x as i32, y as i32), k + 2))
                    } else {
                        None
                    },
                    None => None,
                }
            } else {
                None
            },
            None => None,
        }
    } else if has_wait_tag(s, i) {
        match parse_int(s, i + 8) {
            Some((d, j)) => if j < s.len() && s[j] == 125 {
                Some((ClickEvent::Wait(d as i32), j + 1))
            } else {
                None
            },
            None => None,
        }
    } else {
        None
    }
}

/// Reads the events after the first one: each preceded by a comma. Stops
/// before the first byte that is not a comma.
pub open spec fn parse_more(s: Seq<u8>, i: int) -> Option<(Seq<ClickEvent>, int)>
    decreases s.len() - i when 0 <= i <= s.len()
{
    if i < s.len() && s[i] == 44 {
        match parse_event(s, i + 1) {
            Some((e, j)) => if i < j && j <= s.len() {
                match parse_more(s, j) {
                    Some((rest, k)) => Some((seq![e] + rest, k)),
                    None => None,
                }
            } else {
                None
            },
            None => None,
        }
    } else {
        Some((Seq::empty(), i))
    }
}

/// Reads the whole event list between `[` and `]`, stopping before the `]`.
pub open spec fn parse_list(s: Seq<u8>, i: int) -> Option<(Seq<ClickEvent>, int)> {
    if i < s.len() && s[i] == 93 {
        Some((Seq::empty(), i))
    } else {
        match parse_event(s, i) {
            Some((e, j)) => if i < j && j <= s.len() {
                match parse_more(s, j) {
                    Some((rest, k)) => Some((seq![e] + rest, k)),
                    None => None,
                }
            } else {
                None
            },
            None => None,
        }
    }
}

/// Reads a whole persisted document, exactly: the opening `{"clicks":[`,
/// the event list, and the closing `]}` ending the input.
pub open spec fn decode_log(s: Seq<u8>) -> Option<Seq<ClickEvent>> {
    if has_doc_open(s, 0) {
        match parse_list(s, 11) {
            Some((evs, k)) => if k + 2 == s.len() && s[k] == 93 && s[k + 1] == 125 {
                Some(evs)
            } else {
                None
            },
            None => None,
        }
    } else {
        None
    }
}

/// `parse_list` and `parse_more` prepend what was already read; prepending
/// commutes with reading one more event.
pub open spec fn with_prefix(pre: Seq<ClickEvent>, r: Option<(Seq<ClickEvent>, int)>) -> Option<
    (Seq<ClickEvent>, int),
> {
    match r {
        Some(rk) => Some((pre + rk.0, rk.1)),
        None => None,
    }
}

proof fn lemma_with_prefix_push(pre: Seq<ClickEvent>, e: ClickEvent, r: Option<(Seq<ClickEvent>, int)>)
    ensures
        with_prefix(pre, with_prefix(seq![e], r)) == with_prefix(pre.push(e), r),
{
    match r {
        Some(rk) => {
            assert(pre + (seq![e] + rk.0) =~= pre.push(e) + rk.0);
        },
        None => {},
    }
}

/// Checks for the opening bytes of a click record.
fn has_click_tag_at(data: &[u8], i: usize) -> (b: bool)
    requires
        i <= data@.len(),
    ensures
        b == has_click_tag(data@, i as int),
{
    data.len() - i >= 10 && data[i] == 123 && data[i + 1] == 34 && data[i + 2] == 67 && data[i + 3]
        == 108 && data[i + 4] == 105 && data[i + 5] == 99 && data[i + 6] == 107 && data[i + 7]
        == 34 && data[i + 8] == 58 && data[i + 9] == 91
}

/// Checks for the opening bytes of a wait record.
fn has_wait_tag_at(data: &[u8], i: usize) -> (b: bool)
    requires
        i <= data@.len(),
    ensures
        b == has_wait_tag(data@, i as int),
{
    data.len() - i >= 8 && data[i] == 123 && data[i + 1] == 34 && data[i + 2] == 87 && data[i + 3]
        == 97 && data[i + 4] == 105 && data[i + 5] == 116 && data[i + 6] == 34 && data[i + 7] == 58
}

/// Checks for the opening bytes of the whole document.
fn has_doc_open_at(data: &[u8], i: usize) -> (b: bool)
    requires
        i <= data@.len(),
    ensures
        b == has_doc_open(data@, i as int),
{
    data.len() - i >= 11 && data[i] == 123 && data[i + 1] == 34 && data[i + 2] == 99 && data[i + 3]
        == 108 && data[i + 4] == 105 && data[i + 5] == 99 && data[i + 6] == 107 && data[i + 7]
        == 115 && data[i + 8] == 34 && data[i + 9] == 58 && data[i + 10] == 91
}

/// Reads one tagged event at `i`, exactly as `parse_event` describes.
fn read_event(data: &[u8], i: usize) -> (r: Option<(ClickEvent, usize)>)
    requires
        i <= data@.len(),
    ensures
        match r {
            Some(ej) => parse_event(data@, i as int) == Some((ej.0, ej.1 as int)) && i < ej.1
                <= data@.len(),
            None => parse_event(data@, i as int) is None,
        },
{
    let n = data.len();
    if has_click_tag_at(data, i) {
        assert(i + 10 <= n);
        match read_int(data, i + 10) {
            Some((x, j)) => {
                if j < data.len() && data[j] == 44 {
                    match read_int(data, j + 1) {
                        Some((y, k)) => {
                            if data.len() - k >= 2 && data[k] == 93 && data[k + 1] == 125 {
                                Some((ClickEvent::Click(x, y), k + 2))
                            } else {
                                None
                            }
                        },
                        None => None,
                    }
                } else {
                    None
                }
            },
            None => None,
        }
    } else if has_wait_tag_at(data, i) {
        assert(i + 8 <= n);
        match read_int(data, i + 8) {
            Some((d, j)) => {
                if j < data.len() && data[j] == 125 {
                    Some((ClickEvent::Wait(d), j + 1))
                } else {
                    None
                }
            },
            None => None,
        }
    } else {
        None
    }
}

/// Decodes a persisted byte form back into a path. Yields the decoded path
/// exactly when the input is a well-formed document, and nothing otherwise.
pub fn deserialize(data: &[u8]) -> (r: Option<ClickPath>)
    ensures
        match r {
            Some(p) => decode_log(data@) == Some(p@),
            None => decode_log(data@) is None,
        },
{
    let n = data.len();
    if !has_doc_open_at(data, 0) {
        return None;
    }
    let mut acc: Vec<ClickEvent> = Vec::new();
    let mut cur: usize = 11;
    if cur < n && data[cur] == 93 {
        proof {
            assert(parse_list(data@, 11) == Some((Seq::<ClickEvent>::empty(), 11int)));
            assert(acc@ =~= Seq::<ClickEvent>::empty());
        }
    } else {
        match read_event(data, cur) {
            None => {
                return None;
            },
            Some((e, j)) => {
                acc.push(e);
                cur = j;
                proof {
                    assert(acc@ =~= seq![e]);
                    assert(parse_list(data@, 11) == with_prefix(seq![e], parse_more(data@, j as int)));
                }
            },
        }
        while cur < n && data[cur] == 44
            invariant
                n == data@.len(),
                11 <= cur <= n,
                has_doc_open(data@, 0),
                parse_list(data@, 11) == with_prefix(acc@, parse_more(data@, cur as int)),
            decreases n - cur,
        {
            match read_event(data, cur + 1) {
                None => {
                    proof {
                        assert(parse_more(data@, cur as int) is None);
                        assert(decode_log(data@) is None);
                    }
                    return None;
                },
                Some((e, j)) => {
                    proof {
                        assert(parse_more(data@, cur as int) == with_prefix(
                            seq![e],
                            parse_more(data@, j as int),
                        ));
                        lemma_with_prefix_push(acc@, e, parse_more(data@, j as int));
                    }
                    acc.push(e);
                    cur = j;
                },
            }
        }
        proof {
            assert(parse_more(data@, cur as int) == Some((Seq::<ClickEvent>::empty(), cur as int)));
            assert(acc@ + Seq::<ClickEvent>::empty() =~= acc@);
        }
    }
    proof {
        assert(parse_list(data@, 11) == Some((acc@, cur as int)));
    }
    if n - cur == 2 && data[cur] == 93 && data[cur + 1] == 125 {
        Some(ClickPath { clicks: acc })
    } else {
        None
    }
}

} // verus!
