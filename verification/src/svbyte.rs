//! Stream-vbyte-delta coding for tails shorter than one full block.
//!
//! A tail of `n` doc ids is stored as `ceil(n / 4)` control bytes followed by
//! the data bytes: each doc id's delta against its predecessor (the first
//! against the `initial` seed) takes 1 to 4 little-endian data bytes, and its
//! control field (two bits per element, low fields first) holds that byte
//! count minus one.

use vstd::prelude::*;
use vstd::arithmetic::div_mod::lemma_div_denominator;
use vstd::arithmetic::div_mod::lemma_fundamental_div_mod;
use vstd::arithmetic::div_mod::lemma_multiply_divide_lt;

use crate::compress::sorted_from;

verus! {

broadcast use vstd::seq::group_seq_axioms;

/// Powers of 256 up to `256^4`, the range a data byte position can use.
pub open spec fn p256(k: int) -> int {
    if k <= 0 {
        1
    } else if k == 1 {
        256
    } else if k == 2 {
        65536
    } else if k == 3 {
        16777216
    } else {
        4294967296
    }
}

/// Powers of 4 up to `4^3`, the weights of the four control fields.
pub open spec fn p4(k: int) -> int {
    if k <= 0 {
        1
    } else if k == 1 {
        4
    } else if k == 2 {
        16
    } else {
        64
    }
}

/// The control code of `delta`: one less than the number of data bytes.
pub open spec fn code_of(delta: u32) -> int {
    if delta < 256 {
        0
    } else if delta < 65536 {
        1
    } else if delta < 16777216 {
        2
    } else {
        3
    }
}

/// The `nb` little-endian bytes of `d`.
pub open spec fn le_bytes(d: int, nb: int) -> Seq<u8> {
    Seq::new(nb as nat, |k: int| ((d / p256(k)) % 256) as u8)
}

/// The value a little-endian byte run denotes.
pub open spec fn le_val(bytes: Seq<u8>) -> int
    decreases bytes.len(),
{
    if bytes.len() == 0 {
        0
    } else {
        bytes[0] + 256 * le_val(bytes.skip(1))
    }
}

/// Number of control bytes for a tail of `count` doc ids.
pub open spec fn ctrl_len(count: int) -> int {
    (count + 3) / 4
}

/// The control code of element `i`, read from the control bytes.
pub open spec fn code_at(bytes: Seq<u8>, i: int) -> int {
    (bytes[i / 4] as int / p4(i % 4)) % 4
}

/// The delta of element `i` of `xs` against its predecessor.
pub open spec fn delta_at(initial: u32, xs: Seq<u32>, i: int) -> int {
    if i == 0 {
        xs[0] - initial
    } else {
        xs[i] - xs[i - 1]
    }
}

/// Offset of element `i`'s data bytes, relative to the end of the control
/// bytes.
pub open spec fn data_off(initial: u32, xs: Seq<u32>, i: int) -> int
    decreases i,
{
    if i <= 0 {
        0
    } else {
        data_off(initial, xs, i - 1) + code_of(delta_at(initial, xs, i - 1) as u32) + 1
    }
}

/// Decoding elements `i..count` with cursor `dpos`, predecessor `prev`.
pub open spec fn spec_decode_from(
    prev: u32,
    count: int,
    bytes: Seq<u8>,
    i: int,
    dpos: int,
) -> Option<(Seq<u32>, int)>
    decreases count - i,
{
    if i >= count {
        Some((Seq::empty(), dpos))
    } else {
        let nb = code_at(bytes, i) + 1;
        if dpos + nb <= bytes.len() {
            let delta = le_val(bytes.subrange(dpos, dpos + nb));
            if prev + delta <= u32::MAX {
                let v = (prev + delta) as u32;
                match spec_decode_from(v, count, bytes, i + 1, dpos + nb) {
                    Some(p) => Some((seq![v] + p.0, p.1)),
                    None => None,
                }
            } else {
                None
            }
        } else {
            None
        }
    }
}

/// The stream-vbyte-delta decode of a tail: the doc ids and the number of
/// bytes consumed, or `None` when `bytes` is malformed.
pub open spec fn spec_decode(initial: u32, count: int, bytes: Seq<u8>) -> Option<(Seq<u32>, int)> {
    if count <= 0 {
        None
    } else if ctrl_len(count) <= bytes.len() {
        spec_decode_from(initial, count, bytes, 0, ctrl_len(count))
    } else {
        None
    }
}

proof fn lemma_le_bytes_skip(d: int, nb: int)
    requires
        1 <= nb <= 4,
        0 <= d,
    ensures
        le_bytes(d, nb).skip(1) =~= le_bytes(d / 256, nb - 1),
{
    assert forall|k: int| 0 <= k < nb - 1 implies le_bytes(d, nb).skip(1)[k] == le_bytes(
        d / 256,
        nb - 1,
    )[k] by {
        lemma_div_denominator(d, 256, p256(k));
        assert(256 * p256(k) == p256(k + 1));
    }
}

proof fn lemma_le_roundtrip(d: int, nb: int)
    requires
        1 <= nb <= 4,
        0 <= d < p256(nb),
    ensures
        le_val(le_bytes(d, nb)) == d,
    decreases nb,
{
    lemma_le_bytes_skip(d, nb);
    lemma_fundamental_div_mod(d, 256);
    if nb == 1 {
        assert(le_bytes(d, 1).skip(1).len() == 0);
        assert(le_val(le_bytes(d, 1).skip(1)) == 0);
        assert(le_val(le_bytes(d, 1)) == d % 256);
    } else {
        lemma_multiply_divide_lt(d, 256, p256(nb - 1));
        lemma_le_roundtrip(d / 256, nb - 1);
    }
}

proof fn lemma_le_val_take_snoc(s: Seq<u8>, k: int)
    requires
        0 <= k < s.len(),
        k <= 3,
    ensures
        le_val(s.take(k + 1)) == le_val(s.take(k)) + s[k] * p256(k),
    decreases k,
{
    if k == 0 {
        assert(s.take(1).skip(1).len() == 0);
        assert(s.take(0).len() == 0);
        assert(le_val(s.take(1).skip(1)) == 0);
        assert(le_val(s.take(0)) == 0);
        assert(le_val(s.take(1)) == s.take(1)[0] + 256 * le_val(s.take(1).skip(1)));
        assert(s.take(1)[0] == s[0]);
    } else {
        let t = s.skip(1);
        lemma_le_val_take_snoc(t, k - 1);
        assert(s.take(k + 1).skip(1) =~= t.take(k));
        assert(s.take(k).skip(1) =~= t.take(k - 1));
        assert(le_val(s.take(k + 1)) == s[0] + 256 * le_val(t.take(k)));
        assert(le_val(s.take(k)) == s[0] + 256 * le_val(t.take(k - 1)));
        assert(256 * p256(k - 1) == p256(k));
        assert(t[k - 1] == s[k]);
        assert(256 * (t[k - 1] * p256(k - 1)) == s[k] * p256(k)) by (nonlinear_arith)
            requires
                t[k - 1] == s[k],
                p256(k) == 256 * p256(k - 1),
        ;
    }
}

/// Data offsets grow by one to four bytes per element.
proof fn lemma_data_off_bounds(initial: u32, xs: Seq<u32>, i: int, j: int)
    requires
        0 <= i <= j,
    ensures
        data_off(initial, xs, i) + (j - i) <= data_off(initial, xs, j) <= data_off(initial, xs, i)
            + 4 * (j - i),
    decreases j - i,
{
    if i < j {
        lemma_data_off_bounds(initial, xs, i, j - 1);
    }
}

/// A successful decode yields `count - i` values and a cursor that stays
/// within `bytes`.
proof fn lemma_decode_from_some(prev: u32, count: int, bytes: Seq<u8>, i: int, dpos: int)
    requires
        0 <= dpos <= bytes.len(),
    ensures
        spec_decode_from(prev, count, bytes, i, dpos) matches Some(p) ==> p.0.len() == if count
            >= i {
            count - i
        } else {
            0int
        } && dpos <= p.1 <= bytes.len(),
    decreases count - i,
{
    if i < count {
        let nb = code_at(bytes, i) + 1;
        if dpos + nb <= bytes.len() {
            let delta = le_val(bytes.subrange(dpos, dpos + nb));
            if prev + delta <= u32::MAX {
                let v = (prev + delta) as u32;
                lemma_decode_from_some(v, count, bytes, i + 1, dpos + nb);
            }
        }
    }
}

pub proof fn lemma_decode_some(initial: u32, count: int, bytes: Seq<u8>)
    requires
        count > 0,
    ensures
        spec_decode(initial, count, bytes) matches Some(p) ==> p.0.len() == count && 0 < p.1
            <= bytes.len(),
{
    if ctrl_len(count) <= bytes.len() {
        lemma_decode_from_some(initial, count, bytes, 0, ctrl_len(count));
    }
}

/// A subrange taken inside a prefix reads the same bytes in the longer
/// sequence.
pub proof fn lemma_subrange_prefix<T>(a: Seq<T>, b: Seq<T>, lo: int, hi: int)
    requires
        b.take(a.len() as int) == a,
        0 <= lo <= hi <= a.len(),
        a.len() <= b.len(),
    ensures
        b.subrange(lo, hi) =~= a.subrange(lo, hi),
{
    assert forall|m: int| 0 <= m < hi - lo implies b.subrange(lo, hi)[m] == a.subrange(lo, hi)[m] by {
        assert(b.take(a.len() as int)[lo + m] == b[lo + m]);
    }
}

/// A subrange taken after the first part of a concatenation reads from the
/// second part.
pub proof fn lemma_subrange_concat<T>(c: Seq<T>, d: Seq<T>, lo: int, hi: int)
    requires
        0 <= lo <= hi <= d.len(),
    ensures
        (c + d).subrange(c.len() + lo, c.len() + hi) =~= d.subrange(lo, hi),
{
    assert forall|m: int|
        0 <= m < hi - lo implies (c + d).subrange(c.len() + lo, c.len() + hi)[m] == d.subrange(
        lo,
        hi,
    )[m] by {
        assert((c + d)[c.len() + lo + m] == d[lo + m]);
    }
}

/// The four control fields of a packed control byte.
proof fn lemma_ctrl_fields(c0: int, c1: int, c2: int, c3: int)
    requires
        0 <= c0 < 4,
        0 <= c1 < 4,
        0 <= c2 < 4,
        0 <= c3 < 4,
    ensures
        (c0 + 4 * c1 + 16 * c2 + 64 * c3) / 1 % 4 == c0,
        (c0 + 4 * c1 + 16 * c2 + 64 * c3) / 4 % 4 == c1,
        (c0 + 4 * c1 + 16 * c2 + 64 * c3) / 16 % 4 == c2,
        (c0 + 4 * c1 + 16 * c2 + 64 * c3) / 64 % 4 == c3,
{
    let s = c0 + 4 * c1 + 16 * c2 + 64 * c3;
    assert(s / 1 % 4 == c0 && s / 4 % 4 == c1 && s / 16 % 4 == c2 && s / 64 % 4 == c3)
        by (nonlinear_arith)
        requires
            0 <= c0 < 4,
            0 <= c1 < 4,
            0 <= c2 < 4,
            0 <= c3 < 4,
            s == c0 + 4 * c1 + 16 * c2 + 64 * c3,
    ;
}

/// Every delta fits in the byte count its control code names.
proof fn lemma_delta_fits(delta: u32)
    ensures
        0 <= delta < p256(code_of(delta) + 1),
{
}

/// Decoding bytes laid out as the encoder lays them out gives back `xs`.
proof fn lemma_decode_encoded(initial: u32, xs: Seq<u32>, bytes: Seq<u8>, i: int, prev: u32)
    requires
        0 < xs.len(),
        sorted_from(initial, xs),
        0 <= i <= xs.len(),
        prev == if i == 0 {
            initial
        } else {
            xs[i - 1]
        },
        bytes.len() == ctrl_len(xs.len() as int) + data_off(initial, xs, xs.len() as int),
        forall|j: int|
            0 <= j < xs.len() ==> #[trigger] code_at(bytes, j) == code_of(
                delta_at(initial, xs, j) as u32,
            ),
        forall|j: int|
            0 <= j < xs.len() ==> #[trigger] bytes.subrange(
                ctrl_len(xs.len() as int) + data_off(initial, xs, j),
                ctrl_len(xs.len() as int) + data_off(initial, xs, j + 1),
            ) == le_bytes(
                delta_at(initial, xs, j),
                code_of(delta_at(initial, xs, j) as u32) + 1,
            ),
    ensures
        spec_decode_from(
            prev,
            xs.len() as int,
            bytes,
            i,
            ctrl_len(xs.len() as int) + data_off(initial, xs, i),
        ) == Some((xs.skip(i), bytes.len() as int)),
    decreases xs.len() - i,
{
    let n = xs.len() as int;
    let cl = ctrl_len(n);
    let dpos = cl + data_off(initial, xs, i);
    if i >= n {
        assert(xs.skip(i) =~= Seq::<u32>::empty());
        assert(data_off(initial, xs, i) == data_off(initial, xs, n));
    } else {
        let delta = delta_at(initial, xs, i);
        assert(0 <= delta) by {
            if i > 0 {
                assert(xs[i - 1] <= xs[i]);
            }
        }
        let code = code_of(delta as u32);
        let nb = code + 1;
        assert(code_at(bytes, i) == code);
        assert(data_off(initial, xs, i + 1) == data_off(initial, xs, i) + nb);
        lemma_data_off_bounds(initial, xs, 0, i);
        lemma_data_off_bounds(initial, xs, i + 1, n);
        assert(dpos + nb <= bytes.len());
        assert(bytes.subrange(
            ctrl_len(xs.len() as int) + data_off(initial, xs, i),
            ctrl_len(xs.len() as int) + data_off(initial, xs, i + 1),
        ) == le_bytes(delta_at(initial, xs, i), code_of(delta_at(initial, xs, i) as u32) + 1));
        assert(bytes.subrange(dpos, dpos + nb) == le_bytes(delta, nb));
        lemma_delta_fits(delta as u32);
        lemma_le_roundtrip(delta, nb);
        assert(le_val(bytes.subrange(dpos, dpos + nb)) == delta);
        assert(prev + delta == xs[i]);
        let v = xs[i];
        lemma_decode_encoded(initial, xs, bytes, i + 1, v);
        assert(seq![v] + xs.skip(i + 1) =~= xs.skip(i));
    }
}

/// Appends the stream-vbyte-delta encoding of `input` to `out`.
///
/// The appended bytes decode back to `input` exactly, consuming all of them.
#[verifier::rlimit(60)]
pub fn encode_tail(initial: u32, input: &[u32], out: &mut Vec<u8>)
    requires
        0 < input@.len(),
        sorted_from(initial, input@),
        old(out)@.len() + 5 * input@.len() + 8 <= usize::MAX,
    ensures
        final(out)@.len() > old(out)@.len(),
        final(out)@.len() <= old(out)@.len() + 5 * input@.len() + 8,
        final(out)@.take(old(out)@.len() as int) == old(out)@,
        spec_decode(initial, input@.len() as int, final(out)@.skip(old(out)@.len() as int))
            == Some((input@, final(out)@.len() - old(out)@.len())),
{
    let n = input.len();
    let mut ctrl: Vec<u8> = Vec::new();
    let mut data: Vec<u8> = Vec::new();
    let mut cb: u8 = 0;
    let mut prev: u32 = initial;
    let mut i: usize = 0;
    while i < n
        invariant
            n == input@.len(),
            0 < n,
            5 * n + 8 <= usize::MAX,
            sorted_from(initial, input@),
            i <= n,
            prev == if i == 0 {
                initial
            } else {
                input@[i - 1]
            },
            ctrl@.len() == i / 4,
            data@.len() == data_off(initial, input@, i as int),
            data@.len() <= 4 * i,
            forall|j: int|
                0 <= j < 4 * (i / 4) ==> #[trigger] (ctrl@[j / 4] as int / p4(j % 4)) % 4
                    == code_of(delta_at(initial, input@, j) as u32),
            cb as int == partial_cb(initial, input@, i as int),
            forall|j: int|
                0 <= j < i ==> #[trigger] data@.subrange(
                    data_off(initial, input@, j),
                    data_off(initial, input@, j + 1),
                ) == le_bytes(
                    delta_at(initial, input@, j),
                    code_of(delta_at(initial, input@, j) as u32) + 1,
                ),
        decreases n - i,
    {
        proof {
            if i > 0 {
                assert(input@[i as int - 1] <= input@[i as int]);
            }
        }
        let delta: u32 = input[i] - prev;
        proof {
            assert(delta == delta_at(initial, input@, i as int));
        }
        let code: u8 = if delta < 256 {
            0
        } else if delta < 65536 {
            1
        } else if delta < 16777216 {
            2
        } else {
            3
        };
        proof {
            assert(code as int == code_of(delta));
        }
        // append the delta's data bytes, low byte first
        let ghost data_pre = data@;
        let mut d: u32 = delta;
        let mut k: u8 = 0;
        while k < code + 1
            invariant
                code <= 3,
                k <= code + 1,
                d == delta as int / p256(k as int),
                data@.len() == data_pre.len() + k,
                data@.take(data_pre.len() as int) == data_pre,
                forall|m: int|
                    0 <= m < k ==> #[trigger] data@[data_pre.len() + m] == le_bytes(
                        delta as int,
                        code as int + 1,
                    )[m],
            decreases code + 1 - k,
        {
            let ghost dp = data@;
            data.push((d % 256) as u8);
            proof {
                assert(data@.take(data_pre.len() as int) =~= dp.take(data_pre.len() as int));
                lemma_div_denominator(delta as int, p256(k as int), 256);
                assert(p256(k as int) * 256 == p256(k as int + 1));
                assert((d % 256) as u8 == le_bytes(delta as int, code as int + 1)[k as int]);
            }
            d = d / 256;
            k = k + 1;
        }
        proof {
            assert forall|m: int|
                0 <= m < code as int + 1 implies data@.skip(data_pre.len() as int)[m] == le_bytes(
                delta as int,
                code as int + 1,
            )[m] by {
                assert(data@[data_pre.len() + m] == le_bytes(delta as int, code as int + 1)[m]);
            }
            assert(data@.skip(data_pre.len() as int) =~= le_bytes(delta as int, code as int + 1));
            assert(data@.subrange(
                data_off(initial, input@, i as int),
                data_off(initial, input@, i as int + 1),
            ) =~= data@.skip(data_pre.len() as int));
            assert forall|j: int| 0 <= j < i implies #[trigger] data@.subrange(
                data_off(initial, input@, j),
                data_off(initial, input@, j + 1),
            ) == le_bytes(
                delta_at(initial, input@, j),
                code_of(delta_at(initial, input@, j) as u32) + 1,
            ) by {
                lemma_data_off_bounds(initial, input@, 0, j);
                lemma_data_off_bounds(initial, input@, j + 1, i as int);
                lemma_subrange_prefix(
                    data_pre,
                    data@,
                    data_off(initial, input@, j),
                    data_off(initial, input@, j + 1),
                );
            }
        }
        // fold the control code into the current control byte
        let shift: u8 = match i % 4 {
            0 => 1,
            1 => 4,
            2 => 16,
            _ => 64,
        };
        proof {
            assert(shift as int == p4(i as int % 4));
            lemma_partial_cb_bound(initial, input@, i as int);
            assert(0 <= code as int * shift as int <= 3 * p4(i as int % 4)) by (nonlinear_arith)
                requires
                    0 <= code <= 3,
                    shift as int == p4(i as int % 4),
                    p4(i as int % 4) >= 0,
            ;
            assert(4 * p4(i as int % 4) <= 256);
            if (i + 1) % 4 != 0 {
                assert(partial_cb(initial, input@, i as int + 1) == partial_cb(
                    initial,
                    input@,
                    i as int,
                ) + code_of(delta_at(initial, input@, i as int) as u32) * p4(i as int % 4));
            }
        }
        cb = cb + code * shift;
        let ghost ctrl_pre = ctrl@;
        if i % 4 == 3 {
            ctrl.push(cb);
            cb = 0;
            proof {
                assert(ctrl@[ctrl_pre.len() as int] as int == partial_cb(initial, input@, i as int)
                    + code_of(delta_at(initial, input@, i as int) as u32) * p4(3));
                lemma_group_fields(initial, input@, ctrl@, i as int + 1);
                assert forall|j: int| 0 <= j < 4 * ((i + 1) / 4) implies #[trigger] (ctrl@[j / 4]
                    as int / p4(j % 4)) % 4 == code_of(delta_at(initial, input@, j) as u32) by {
                    if j / 4 < ctrl_pre.len() {
                        assert(ctrl@[j / 4] == ctrl_pre[j / 4]);
                    }
                }
            }
        }
        prev = input[i];
        i = i + 1;
    }
    // flush the partial final control byte
    if n % 4 != 0 {
        ctrl.push(cb);
        proof {
            lemma_group_fields_partial(initial, input@, ctrl@, n as int);
        }
    }
    let ghost base: int = out@.len() as int;
    let ghost ctrl_s = ctrl@;
    let ghost data_s = data@;
    out.append(&mut ctrl);
    out.append(&mut data);
    proof {
        let written = out@.skip(base);
        let nn = n as int;
        assert(written =~= ctrl_s + data_s);
        assert(out@.take(base) =~= old(out)@);
        assert(ctrl_s.len() == ctrl_len(nn));
        lemma_data_off_bounds(initial, input@, 0, nn);
        assert forall|j: int| 0 <= j < nn implies #[trigger] code_at(written, j) == code_of(
            delta_at(initial, input@, j) as u32,
        ) by {
            assert(written[j / 4] == ctrl_s[j / 4]);
        }
        assert forall|j: int| 0 <= j < nn implies #[trigger] written.subrange(
            ctrl_len(nn) + data_off(initial, input@, j),
            ctrl_len(nn) + data_off(initial, input@, j + 1),
        ) == le_bytes(
            delta_at(initial, input@, j),
            code_of(delta_at(initial, input@, j) as u32) + 1,
        ) by {
            lemma_data_off_bounds(initial, input@, 0, j);
            lemma_data_off_bounds(initial, input@, j + 1, nn);
            lemma_subrange_concat(
                ctrl_s,
                data_s,
                data_off(initial, input@, j),
                data_off(initial, input@, j + 1),
            );
        }
        lemma_decode_encoded(initial, input@, written, 0, initial);
        assert(input@.skip(0) =~= input@);
    }
}

/// The control fields of element `i`'s group that are already decided:
/// the weighted sum of the codes of elements `4 * (i / 4) .. i`.
pub open spec fn partial_cb(initial: u32, xs: Seq<u32>, i: int) -> int
    decreases i,
{
    if i <= 0 || i % 4 == 0 {
        0
    } else {
        partial_cb(initial, xs, i - 1) + code_of(delta_at(initial, xs, i - 1) as u32) * p4(
            (i - 1) % 4,
        )
    }
}

proof fn lemma_partial_cb_bound(initial: u32, xs: Seq<u32>, i: int)
    requires
        0 <= i,
    ensures
        0 <= partial_cb(initial, xs, i) < p4(i % 4),
    decreases i,
{
    if !(i <= 0 || i % 4 == 0) {
        lemma_partial_cb_bound(initial, xs, i - 1);
        let c = code_of(delta_at(initial, xs, i - 1) as u32);
        let m = (i - 1) % 4;
        assert(i % 4 == m + 1);
        assert(0 <= c * p4(m) <= 3 * p4(m)) by (nonlinear_arith)
            requires
                0 <= c <= 3,
                p4(m) >= 0,
        ;
        assert(p4(m + 1) == 4 * p4(m));
    }
}

/// A full control byte's four fields decode to the four codes folded into it.
proof fn lemma_group_fields(initial: u32, xs: Seq<u32>, ctrl: Seq<u8>, i: int)
    requires
        i % 4 == 0,
        i >= 4,
        ctrl.len() == i / 4,
        ctrl[i / 4 - 1] as int == partial_cb(initial, xs, i - 1) + code_of(
            delta_at(initial, xs, i - 1) as u32,
        ) * p4(3),
    ensures
        forall|j: int|
            i - 4 <= j < i ==> #[trigger] (ctrl[j / 4] as int / p4(j % 4)) % 4 == code_of(
                delta_at(initial, xs, j) as u32,
            ),
{
    let c0 = code_of(delta_at(initial, xs, i - 4) as u32);
    let c1 = code_of(delta_at(initial, xs, i - 3) as u32);
    let c2 = code_of(delta_at(initial, xs, i - 2) as u32);
    let c3 = code_of(delta_at(initial, xs, i - 1) as u32);
    assert((i - 3) % 4 == 1 && (i - 2) % 4 == 2 && (i - 1) % 4 == 3 && (i - 4) % 4 == 0);
    assert(partial_cb(initial, xs, i - 3) == c0 * 1) by {
        assert(partial_cb(initial, xs, i - 4) == 0);
    }
    assert(partial_cb(initial, xs, i - 2) == c0 + c1 * 4);
    assert(partial_cb(initial, xs, i - 1) == c0 + c1 * 4 + c2 * 16);
    assert(ctrl[i / 4 - 1] as int == c0 + 4 * c1 + 16 * c2 + 64 * c3);
    lemma_ctrl_fields(c0, c1, c2, c3);
    assert forall|j: int| i - 4 <= j < i implies #[trigger] (ctrl[j / 4] as int / p4(j % 4)) % 4
        == code_of(delta_at(initial, xs, j) as u32) by {
        assert(j / 4 == i / 4 - 1);
    }
}

/// A flushed partial control byte decodes its written fields; the unwritten
/// high fields are zero and are never read.
proof fn lemma_group_fields_partial(initial: u32, xs: Seq<u32>, ctrl: Seq<u8>, n: int)
    requires
        n % 4 != 0,
        n >= 1,
        ctrl.len() == n / 4 + 1,
        ctrl[n / 4] as int == partial_cb(initial, xs, n),
        forall|j: int|
            0 <= j < 4 * (n / 4) ==> #[trigger] (ctrl[j / 4] as int / p4(j % 4)) % 4 == code_of(
                delta_at(initial, xs, j) as u32,
            ),
    ensures
        forall|j: int|
            0 <= j < n ==> #[trigger] (ctrl[j / 4] as int / p4(j % 4)) % 4 == code_of(
                delta_at(initial, xs, j) as u32,
            ),
{
    let g = 4 * (n / 4);
    let c0 = code_of(delta_at(initial, xs, g) as u32);
    let c1 = if n > g + 1 {
        code_of(delta_at(initial, xs, g + 1) as u32)
    } else {
        0
    };
    let c2 = if n > g + 2 {
        code_of(delta_at(initial, xs, g + 2) as u32)
    } else {
        0
    };
    assert(partial_cb(initial, xs, g) == 0);
    assert(partial_cb(initial, xs, g + 1) == c0) by {
        assert((g + 1) % 4 == 1);
    }
    if n > g + 1 {
        assert(partial_cb(initial, xs, g + 2) == c0 + c1 * 4) by {
            assert((g + 2) % 4 == 2);
        }
    }
    if n > g + 2 {
        assert(partial_cb(initial, xs, g + 3) == c0 + c1 * 4 + c2 * 16) by {
            assert((g + 3) % 4 == 3);
        }
    }
    assert(ctrl[n / 4] as int == c0 + 4 * c1 + 16 * c2 + 64 * 0);
    lemma_ctrl_fields(c0, c1, c2, 0);
    assert forall|j: int| 0 <= j < n implies #[trigger] (ctrl[j / 4] as int / p4(j % 4)) % 4
        == code_of(delta_at(initial, xs, j) as u32) by {
        if j >= g {
            assert(j / 4 == n / 4);
        }
    }
}

/// Decodes a tail of `count` doc ids from the front of `input`.
///
/// Returns the doc ids and the bytes consumed, or `None` exactly when the
/// mathematical decode rejects `input`.
pub fn decode_tail(initial: u32, count: usize, input: &[u8]) -> (r: Option<(Vec<u32>, usize)>)
    requires
        0 < count,
    ensures
        match r {
            Some(p) => spec_decode(initial, count as int, input@) == Some((p.0@, p.1 as int)),
            None => spec_decode(initial, count as int, input@) is None,
        },
{
    let nctrl = (count - 1) / 4 + 1;
    proof {
        assert(nctrl == ctrl_len(count as int));
    }
    if input.len() < nctrl {
        return None;
    }
    let mut vals: Vec<u32> = Vec::new();
    let mut dpos: usize = nctrl;
    let mut prev: u32 = initial;
    let mut i: usize = 0;
    proof {
        assert forall|p: (Seq<u32>, int)|
            spec_decode_from(initial, count as int, input@, 0, nctrl as int) == Some(
                p,
            ) implies Seq::<u32>::empty() + p.0 =~= p.0 by {}
    }
    while i < count
        invariant
            0 < count,
            nctrl == ctrl_len(count as int),
            nctrl <= input@.len(),
            input@.len() <= usize::MAX,
            i <= count,
            vals@.len() == i,
            nctrl <= dpos <= input@.len(),
            spec_decode(initial, count as int, input@) == match spec_decode_from(
                prev,
                count as int,
                input@,
                i as int,
                dpos as int,
            ) {
                Some(p) => Some((vals@ + p.0, p.1)),
                None => None::<(Seq<u32>, int)>,
            },
        decreases count - i,
    {
        proof {
            assert(i as int / 4 < nctrl);
        }
        let cbyte = input[i / 4];
        let shift: u8 = match i % 4 {
            0 => 1,
            1 => 4,
            2 => 16,
            _ => 64,
        };
        let code = (cbyte / shift) % 4;
        proof {
            assert(shift as int == p4(i as int % 4));
            assert(code as int == code_at(input@, i as int));
        }
        let nb: usize = code as usize + 1;
        if input.len() - dpos < nb {
            proof {
                assert(spec_decode_from(prev, count as int, input@, i as int, dpos as int)
                    is None);
            }
            return None;
        }
        let mut delta: u32 = 0;
        let mut k: usize = 0;
        proof {
            assert(input@.subrange(dpos as int, dpos as int + nb as int).take(0).len() == 0);
        }
        while k < nb
            invariant
                nb <= 4,
                k <= nb,
                dpos + nb <= input@.len(),
                input@.len() <= usize::MAX,
                delta as int == le_val(
                    input@.subrange(dpos as int, dpos as int + nb as int).take(k as int),
                ),
                delta < p256(k as int),
            decreases nb - k,
        {
            let b = input[dpos + k];
            let mult: u32 = match k {
                0 => 1,
                1 => 256,
                2 => 65536,
                _ => 16777216,
            };
            proof {
                assert(mult as int == p256(k as int));
                assert(p256(k as int + 1) == 256 * p256(k as int));
                lemma_le_val_take_snoc(
                    input@.subrange(dpos as int, dpos as int + nb as int),
                    k as int,
                );
                assert(input@.subrange(dpos as int, dpos as int + nb as int)[k as int] == input@[
                    dpos as int + k as int
                ]);
                assert((delta as int + b as int * mult as int) < p256(k as int + 1))
                    by (nonlinear_arith)
                    requires
                        delta < p256(k as int),
                        b <= 255,
                        mult == p256(k as int),
                        p256(k as int + 1) == 256 * p256(k as int),
                        p256(k as int) >= 1,
                ;
            }
            delta = delta + b as u32 * mult;
            k = k + 1;
        }
        proof {
            assert(input@.subrange(dpos as int, dpos as int + nb as int).take(nb as int)
                =~= input@.subrange(dpos as int, dpos as int + nb as int));
        }
        let sum: u64 = prev as u64 + delta as u64;
        if sum > u32::MAX as u64 {
            return None;
        }
        let v = sum as u32;
        let ghost vals_pre = vals@;
        vals.push(v);
        dpos = dpos + nb;
        prev = v;
        i = i + 1;
        proof {
            assert forall|p: (Seq<u32>, int)|
                spec_decode_from(prev, count as int, input@, i as int, dpos as int) == Some(
                    p,
                ) implies vals_pre + (seq![v] + p.0) =~= vals@ + p.0 by {}
        }
    }
    proof {
        assert(vals@ + Seq::<u32>::empty() =~= vals@);
    }
    Some((vals, dpos))
}

} // verus!
