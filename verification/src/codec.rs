//! The notification wire codec. Announcements on the pub/sub channel are text
//! payloads: `stop`, or `new_task ` followed by a JSON body carrying the
//! in-flight task projection. The codec fixes one canonical byte form — the
//! one `encode` produces — and `decode` accepts exactly that form; anything
//! else is reported malformed and dropped by the listener.
//!
//! All byte values are ASCII. The body reads
//! `{"id":"<uuid>","task_type":"<kind>","execution_time":"<rfc3339>"}` with
//! the uuid in lowercase hyphenated hex and the instant as
//! `YYYY-MM-DDTHH:MM:SS.ffffffZ`.

use vstd::prelude::*;

use crate::task::Task;
use crate::task::TaskType;
use crate::time::Timestamp;
use crate::time::valid_timestamp;

verus! {

/// One announcement on the channel.
#[derive(Clone, Copy, PartialEq, Eq, Structural, Debug)]
pub enum Notification {
    /// Directs workers to begin graceful shutdown.
    Stop,
    /// Announces a freshly submitted task.
    NewTask(Task),
}

/// Why a payload was rejected; the listener logs and drops such payloads.
#[derive(Clone, Copy, PartialEq, Eq, Structural, Debug)]
pub enum DecodeError {
    /// The payload is not a canonical announcement.
    Malformed,
}

pub open spec fn valid_notification(n: Notification) -> bool {
    match n {
        Notification::Stop => true,
        Notification::NewTask(t) => t.wf(),
    }
}

/// The decimal digit `d` as its ASCII byte.
pub open spec fn dec_digit(d: int) -> u8 {
    (48 + d) as u8
}

/// The hex digit `d` as its lowercase ASCII byte.
pub open spec fn hex_digit(d: int) -> u8 {
    if d < 10 {
        (48 + d) as u8
    } else {
        (87 + d) as u8
    }
}

pub open spec fn digits2(v: int) -> Seq<u8> {
    seq![dec_digit(v / 10 % 10), dec_digit(v % 10)]
}

pub open spec fn digits4(v: int) -> Seq<u8> {
    seq![
        dec_digit(v / 1000 % 10),
        dec_digit(v / 100 % 10),
        dec_digit(v / 10 % 10),
        dec_digit(v % 10),
    ]
}

pub open spec fn digits6(v: int) -> Seq<u8> {
    seq![
        dec_digit(v / 100000 % 10),
        dec_digit(v / 10000 % 10),
        dec_digit(v / 1000 % 10),
        dec_digit(v / 100 % 10),
        dec_digit(v / 10 % 10),
        dec_digit(v % 10),
    ]
}

pub open spec fn pow16(n: nat) -> int
    decreases n,
{
    if n == 0 {
        1
    } else {
        16 * pow16((n - 1) as nat)
    }
}

/// The base-16 digits of `v`, least significant first, padded to `n` digits.
pub open spec fn nibbles_low(v: int, n: nat) -> Seq<int>
    decreases n,
{
    if n == 0 {
        Seq::empty()
    } else {
        seq![v % 16] + nibbles_low(v / 16, (n - 1) as nat)
    }
}

/// The value of base-16 digits given most significant first.
pub open spec fn base16_val(ds: Seq<int>) -> int
    decreases ds.len(),
{
    if ds.len() == 0 {
        0
    } else {
        base16_val(ds.drop_last()) * 16 + ds.last()
    }
}

pub open spec fn nibbles_in_range(ds: Seq<int>) -> bool {
    forall|i: int| 0 <= i < ds.len() ==> 0 <= #[trigger] ds[i] < 16
}

proof fn lemma_pow16_monotone(a: nat, b: nat)
    requires
        a <= b,
    ensures
        1 <= pow16(a) <= pow16(b),
    decreases b,
{
    if b > 0 {
        if a == b {
            lemma_pow16_monotone((a - 1) as nat, (b - 1) as nat);
        } else {
            lemma_pow16_monotone(a, (b - 1) as nat);
        }
    }
}

/// Reading the digits of a value gives back the digits: `nibbles_low` inverts
/// `base16_val`.
proof fn lemma_nibbles_of_base16(ds: Seq<int>)
    requires
        nibbles_in_range(ds),
    ensures
        0 <= base16_val(ds) < pow16(ds.len()),
        nibbles_low(base16_val(ds), ds.len()) == ds.reverse(),
    decreases ds.len(),
{
    if ds.len() == 0 {
        assert(nibbles_low(0, 0) =~= ds.reverse());
    } else {
        let pre = ds.drop_last();
        let d = ds.last();
        assert(nibbles_in_range(pre)) by {
            assert(forall|i: int| 0 <= i < pre.len() ==> pre[i] == #[trigger] ds[i]);
        }
        lemma_nibbles_of_base16(pre);
        let v = base16_val(ds);
        assert(v == base16_val(pre) * 16 + d);
        assert(v < pow16(ds.len())) by {
            assert(base16_val(pre) <= pow16(pre.len()) - 1);
            assert(base16_val(pre) * 16 <= (pow16(pre.len()) - 1) * 16) by (nonlinear_arith)
                requires
                    base16_val(pre) <= pow16(pre.len()) - 1,
            ;
            assert(pow16(ds.len()) == 16 * pow16(pre.len()));
        }
        assert(v % 16 == d && v / 16 == base16_val(pre)) by (nonlinear_arith)
            requires
                v == base16_val(pre) * 16 + d,
                0 <= d < 16,
                0 <= base16_val(pre),
        ;
        assert(nibbles_low(v, ds.len()) == seq![d] + nibbles_low(base16_val(pre), pre.len()));
        assert(nibbles_low(v, ds.len()) =~= ds.reverse()) by {
            assert(nibbles_low(base16_val(pre), pre.len()) == pre.reverse());
        }
    }
}

/// And back: the value of a number's digits is the number.
proof fn lemma_base16_of_nibbles(v: int, n: nat)
    requires
        0 <= v < pow16(n),
    ensures
        nibbles_in_range(nibbles_low(v, n)),
        nibbles_low(v, n).len() == n,
        base16_val(nibbles_low(v, n).reverse()) == v,
    decreases n,
{
    if n == 0 {
        assert(nibbles_low(v, 0).reverse() =~= Seq::<int>::empty());
    } else {
        assert(pow16(n) == 16 * pow16((n - 1) as nat));
        assert(v / 16 < pow16((n - 1) as nat)) by (nonlinear_arith)
            requires
                0 <= v < 16 * pow16((n - 1) as nat),
        ;
        lemma_base16_of_nibbles(v / 16, (n - 1) as nat);
        let rest = nibbles_low(v / 16, (n - 1) as nat);
        assert(nibbles_low(v, n) == seq![v % 16] + rest);
        assert(nibbles_in_range(nibbles_low(v, n))) by {
            assert(forall|i: int|
                1 <= i < n ==> nibbles_low(v, n)[i] == #[trigger] rest[i - 1]);
        }
        let r = nibbles_low(v, n).reverse();
        assert(r =~= rest.reverse().push(v % 16));
        assert(r.drop_last() =~= rest.reverse());
        assert(base16_val(r) == base16_val(rest.reverse()) * 16 + v % 16);
        assert(base16_val(rest.reverse()) == v / 16);
        assert(v / 16 * 16 + v % 16 == v);
    }
}

/// Where the four hyphens of a rendered uuid sit.
pub open spec fn uuid_hyphen(k: int) -> bool {
    k == 8 || k == 13 || k == 18 || k == 23
}

/// How many hyphens precede byte `k` of a rendered uuid.
pub open spec fn hyphens_before(k: int) -> int {
    if k <= 8 {
        0
    } else if k <= 13 {
        1
    } else if k <= 18 {
        2
    } else if k <= 23 {
        3
    } else {
        4
    }
}

/// The 36-byte lowercase hyphenated rendering of a 128-bit identifier.
pub open spec fn uuid_bytes(v: int) -> Seq<u8> {
    Seq::new(
        36,
        |k: int|
            if uuid_hyphen(k) {
                45u8
            } else {
                hex_digit(nibbles_low(v, 32)[31 - (k - hyphens_before(k))])
            },
    )
}

/// The byte position of hex digit `p` within the 36-byte rendering.
pub open spec fn uuid_digit_pos(p: int) -> int {
    if p < 8 {
        p
    } else if p < 12 {
        p + 1
    } else if p < 16 {
        p + 2
    } else if p < 20 {
        p + 3
    } else {
        p + 4
    }
}

proof fn lemma_uuid_positions(p: int)
    requires
        0 <= p < 32,
    ensures
        0 <= uuid_digit_pos(p) < 36,
        !uuid_hyphen(uuid_digit_pos(p)),
        uuid_digit_pos(p) - hyphens_before(uuid_digit_pos(p)) == p,
{
}

pub open spec fn tt_bytes(t: TaskType) -> Seq<u8> {
    match t {
        TaskType::Foo => seq![102u8, 111u8, 111u8],
        TaskType::Bar => seq![98u8, 97u8, 114u8],
        TaskType::Baz => seq![98u8, 97u8, 122u8],
    }
}

/// `YYYY-MM-DDTHH:MM:SS.ffffffZ`, 27 bytes.
pub open spec fn ts_bytes(t: Timestamp) -> Seq<u8> {
    digits4(t.year as int) + seq![45u8] + digits2(t.month as int) + seq![45u8] + digits2(
        t.day as int,
    ) + seq![84u8] + digits2(t.hour as int) + seq![58u8] + digits2(t.minute as int) + seq![58u8]
        + digits2(t.second as int) + seq![46u8] + digits6(t.micro as int) + seq![90u8]
}

/// `{"id":"`
pub open spec fn json_open() -> Seq<u8> {
    seq![123u8, 34u8, 105u8, 100u8, 34u8, 58u8, 34u8]
}

/// `","task_type":"`
pub open spec fn json_mid_type() -> Seq<u8> {
    seq![34u8, 44u8, 34u8, 116u8, 97u8, 115u8, 107u8, 95u8, 116u8, 121u8, 112u8, 101u8, 34u8, 58u8, 34u8]
}

/// `","execution_time":"`
pub open spec fn json_mid_time() -> Seq<u8> {
    seq![
        34u8,
        44u8,
        34u8,
        101u8,
        120u8,
        101u8,
        99u8,
        117u8,
        116u8,
        105u8,
        111u8,
        110u8,
        95u8,
        116u8,
        105u8,
        109u8,
        101u8,
        34u8,
        58u8,
        34u8,
    ]
}

/// `"}`
pub open spec fn json_close() -> Seq<u8> {
    seq![34u8, 125u8]
}

/// `stop`
pub open spec fn stop_bytes() -> Seq<u8> {
    seq![115u8, 116u8, 111u8, 112u8]
}

/// `new_task ` — the kind tag and the space that separates it from the body.
pub open spec fn new_task_prefix() -> Seq<u8> {
    seq![110u8, 101u8, 119u8, 95u8, 116u8, 97u8, 115u8, 107u8, 32u8]
}

/// The JSON body carrying the in-flight projection.
pub open spec fn task_json_bytes(t: Task) -> Seq<u8> {
    json_open() + uuid_bytes(t.id as int) + json_mid_type() + tt_bytes(t.task_type)
        + json_mid_time() + ts_bytes(t.execution_time) + json_close()
}

/// The canonical byte form of an announcement: what `encode` emits and the
/// only form `decode` accepts.
pub open spec fn encode_spec(n: Notification) -> Seq<u8> {
    match n {
        Notification::Stop => stop_bytes(),
        Notification::NewTask(t) => new_task_prefix() + task_json_bytes(t),
    }
}

/// Field offsets within a `new_task` message: the regions of the single
/// concatenation `encode_spec` defines.
pub proof fn lemma_new_task_layout(t: Task)
    ensures
        encode_spec(Notification::NewTask(t)).len() == 119,
        encode_spec(Notification::NewTask(t)).subrange(0, 9) == new_task_prefix(),
        encode_spec(Notification::NewTask(t)).subrange(9, 16) == json_open(),
        encode_spec(Notification::NewTask(t)).subrange(16, 52) == uuid_bytes(t.id as int),
        encode_spec(Notification::NewTask(t)).subrange(52, 67) == json_mid_type(),
        encode_spec(Notification::NewTask(t)).subrange(67, 70) == tt_bytes(t.task_type),
        encode_spec(Notification::NewTask(t)).subrange(70, 90) == json_mid_time(),
        encode_spec(Notification::NewTask(t)).subrange(90, 117) == ts_bytes(t.execution_time),
        encode_spec(Notification::NewTask(t)).subrange(117, 119) == json_close(),
{
    let m = encode_spec(Notification::NewTask(t));
    assert(uuid_bytes(t.id as int).len() == 36);
    assert(tt_bytes(t.task_type).len() == 3);
    assert(ts_bytes(t.execution_time).len() == 27);
    assert(m.len() == 119);
    assert(m.subrange(0, 9) =~= new_task_prefix());
    assert(m.subrange(9, 16) =~= json_open());
    assert(m.subrange(16, 52) =~= uuid_bytes(t.id as int));
    assert(m.subrange(52, 67) =~= json_mid_type());
    assert(m.subrange(67, 70) =~= tt_bytes(t.task_type));
    assert(m.subrange(90, 117) =~= ts_bytes(t.execution_time));
    assert(m.subrange(117, 119) =~= json_close());
}

fn push_digits2(out: &mut Vec<u8>, v: u8)
    requires
        v < 100,
    ensures
        final(out)@ == old(out)@ + digits2(v as int),
{
    let ghost s0 = out@;
    out.push(48 + v / 10);
    out.push(48 + v % 10);
    proof {
        assert(out@ =~= s0 + digits2(v as int));
    }
}

fn push_digits4(out: &mut Vec<u8>, v: u16)
    requires
        v < 10000,
    ensures
        final(out)@ == old(out)@ + digits4(v as int),
{
    let ghost s0 = out@;
    out.push(48 + (v / 1000) as u8);
    out.push(48 + (v / 100 % 10) as u8);
    out.push(48 + (v / 10 % 10) as u8);
    out.push(48 + (v % 10) as u8);
    proof {
        assert(out@ =~= s0 + digits4(v as int));
    }
}

fn push_digits6(out: &mut Vec<u8>, v: u32)
    requires
        v < 1000000,
    ensures
        final(out)@ == old(out)@ + digits6(v as int),
{
    let ghost s0 = out@;
    out.push(48 + (v / 100000) as u8);
    out.push(48 + (v / 10000 % 10) as u8);
    out.push(48 + (v / 1000 % 10) as u8);
    out.push(48 + (v / 100 % 10) as u8);
    out.push(48 + (v / 10 % 10) as u8);
    out.push(48 + (v % 10) as u8);
    proof {
        assert(out@ =~= s0 + digits6(v as int));
    }
}

fn push_uuid(out: &mut Vec<u8>, id: u128)
    ensures
        final(out)@ == old(out)@ + uuid_bytes(id as int),
{
    let mut nibs: Vec<u8> = Vec::new();
    let mut x: u128 = id;
    let mut i: usize = 0;
    while i < 32
        invariant
            i <= 32,
            nibs@.len() == i,
            nibbles_low(id as int, 32) =~= nibs@.map_values(|b: u8| b as int) + nibbles_low(
                x as int,
                (32 - i) as nat,
            ),
            forall|k: int| 0 <= k < i ==> #[trigger] nibs@[k] < 16,
        decreases 32 - i,
    {
        let ghost nibs0 = nibs@;
        nibs.push((x % 16) as u8);
        proof {
            assert(nibs@.map_values(|b: u8| b as int) =~= nibs0.map_values(|b: u8| b as int)
                + seq![(x as int) % 16]);
            assert(nibbles_low(x as int, (32 - i) as nat) == seq![(x as int) % 16]
                + nibbles_low((x as int) / 16, (32 - i - 1) as nat));
            assert(nibbles_low(id as int, 32) =~= nibs@.map_values(|b: u8| b as int)
                + nibbles_low((x as int) / 16, (32 - i - 1) as nat));
        }
        x = x / 16;
        i = i + 1;
    }
    proof {
        assert(nibbles_low(id as int, 32) =~= nibs@.map_values(|b: u8| b as int));
    }
    let ghost s0 = out@;
    let mut k: usize = 0;
    while k < 36
        invariant
            k <= 36,
            nibs@.len() == 32,
            nibbles_low(id as int, 32) == nibs@.map_values(|b: u8| b as int),
            forall|j: int| 0 <= j < 32 ==> #[trigger] nibs@[j] < 16,
            out@ == s0 + uuid_bytes(id as int).subrange(0, k as int),
        decreases 36 - k,
    {
        let ghost pre = uuid_bytes(id as int).subrange(0, k as int);
        if k == 8 || k == 13 || k == 18 || k == 23 {
            out.push(45);
        } else {
            let hb: usize = if k <= 8 {
                0
            } else if k <= 13 {
                1
            } else if k <= 18 {
                2
            } else if k <= 23 {
                3
            } else {
                4
            };
            let p = k - hb;
            let nib = nibs[31 - p];
            let b: u8 = if nib < 10 {
                48 + nib
            } else {
                87 + nib
            };
            out.push(b);
            proof {
                assert(uuid_bytes(id as int)[k as int] == hex_digit(
                    nibbles_low(id as int, 32)[31 - (k as int - hyphens_before(k as int))],
                ));
                assert(nibbles_low(id as int, 32)[31 - p as int] == nib as int);
                assert(b == hex_digit(nib as int));
            }
        }
        proof {
            assert(uuid_bytes(id as int).subrange(0, k as int + 1) =~= pre.push(
                uuid_bytes(id as int)[k as int],
            ));
        }
        k = k + 1;
    }
    proof {
        assert(uuid_bytes(id as int).subrange(0, 36) =~= uuid_bytes(id as int));
    }
}

fn push_task_type(out: &mut Vec<u8>, t: TaskType)
    ensures
        final(out)@ == old(out)@ + tt_bytes(t),
{
    let ghost s0 = out@;
    match t {
        TaskType::Foo => {
            out.push(102);
            out.push(111);
            out.push(111);
        },
        TaskType::Bar => {
            out.push(98);
            out.push(97);
            out.push(114);
        },
        TaskType::Baz => {
            out.push(98);
            out.push(97);
            out.push(122);
        },
    }
    proof {
        assert(out@ =~= s0 + tt_bytes(t));
    }
}

fn push_ts(out: &mut Vec<u8>, t: &Timestamp)
    requires
        valid_timestamp(*t),
    ensures
        final(out)@ == old(out)@ + ts_bytes(*t),
{
    let ghost s0 = out@;
    push_digits4(out, t.year);
    out.push(45);
    push_digits2(out, t.month);
    out.push(45);
    push_digits2(out, t.day);
    out.push(84);
    push_digits2(out, t.hour);
    out.push(58);
    push_digits2(out, t.minute);
    out.push(58);
    push_digits2(out, t.second);
    out.push(46);
    push_digits6(out, t.micro);
    out.push(90);
    proof {
        assert(out@ =~= s0 + ts_bytes(*t));
    }
}

/// Serialize an announcement into its canonical byte form.
pub fn encode_notification(n: &Notification) -> (r: Vec<u8>)
    requires
        valid_notification(*n),
    ensures
        r@ == encode_spec(*n),
{
    let mut out: Vec<u8> = Vec::new();
    match n {
        Notification::Stop => {
            out.push(115);
            out.push(116);
            out.push(111);
            out.push(112);
            proof {
                assert(out@ =~= stop_bytes());
            }
        },
        Notification::NewTask(t) => {
            out.push(110);
            out.push(101);
            out.push(119);
            out.push(95);
            out.push(116);
            out.push(97);
            out.push(115);
            out.push(107);
            out.push(32);
            proof {
                assert(out@ =~= new_task_prefix());
            }
            let ghost s1 = out@;
            out.push(123);
            out.push(34);
            out.push(105);
            out.push(100);
            out.push(34);
            out.push(58);
            out.push(34);
            proof {
                assert(out@ =~= s1 + json_open());
            }
            let ghost s2 = out@;
            push_uuid(&mut out, t.id);
            let ghost s3 = out@;
            out.push(34);
            out.push(44);
            out.push(34);
            out.push(116);
            out.push(97);
            out.push(115);
            out.push(107);
            out.push(95);
            out.push(116);
            out.push(121);
            out.push(112);
            out.push(101);
            out.push(34);
            out.push(58);
            out.push(34);
            proof {
                assert(out@ =~= s3 + json_mid_type());
            }
            let ghost s4 = out@;
            push_task_type(&mut out, t.task_type);
            let ghost s5 = out@;
            out.push(34);
            out.push(44);
            out.push(34);
            out.push(101);
            out.push(120);
            out.push(101);
            out.push(99);
            out.push(117);
            out.push(116);
            out.push(105);
            out.push(111);
            out.push(110);
            out.push(95);
            out.push(116);
            out.push(105);
            out.push(109);
            out.push(101);
            out.push(34);
            out.push(58);
            out.push(34);
            proof {
                assert(out@ =~= s5 + json_mid_time());
            }
            let ghost s6 = out@;
            push_ts(&mut out, &t.execution_time);
            let ghost s7 = out@;
            out.push(34);
            out.push(125);
            proof {
                assert(out@ =~= s7 + json_close());
                assert(out@ =~= encode_spec(*n));
            }
        },
    }
    out
}

/// The payload announcing one freshly submitted task, as the submitter and
/// the sweeper publish it.
pub fn notification_payload(task: &Task) -> (r: Vec<u8>)
    requires
        task.wf(),
    ensures
        r@ == encode_spec(Notification::NewTask(*task)),
{
    encode_notification(&Notification::NewTask(*task))
}

/// The regions of a rendered timestamp.
pub proof fn lemma_ts_layout(t: Timestamp)
    ensures
        ts_bytes(t).len() == 27,
        ts_bytes(t).subrange(0, 4) == digits4(t.year as int),
        ts_bytes(t)[4] == 45u8,
        ts_bytes(t).subrange(5, 7) == digits2(t.month as int),
        ts_bytes(t)[7] == 45u8,
        ts_bytes(t).subrange(8, 10) == digits2(t.day as int),
        ts_bytes(t)[10] == 84u8,
        ts_bytes(t).subrange(11, 13) == digits2(t.hour as int),
        ts_bytes(t)[13] == 58u8,
        ts_bytes(t).subrange(14, 16) == digits2(t.minute as int),
        ts_bytes(t)[16] == 58u8,
        ts_bytes(t).subrange(17, 19) == digits2(t.second as int),
        ts_bytes(t)[19] == 46u8,
        ts_bytes(t).subrange(20, 26) == digits6(t.micro as int),
        ts_bytes(t)[26] == 90u8,
{
    let s = ts_bytes(t);
    assert(s.len() == 27);
    assert(s.subrange(0, 4) =~= digits4(t.year as int));
    assert(s.subrange(5, 7) =~= digits2(t.month as int));
    assert(s.subrange(8, 10) =~= digits2(t.day as int));
    assert(s.subrange(11, 13) =~= digits2(t.hour as int));
    assert(s.subrange(14, 16) =~= digits2(t.minute as int));
    assert(s.subrange(17, 19) =~= digits2(t.second as int));
    assert(s.subrange(20, 26) =~= digits6(t.micro as int));
}

/// A value below 10000 is the weighted sum of its four decimal digits.
proof fn lemma_digits4_complete(v: int)
    requires
        0 <= v < 10000,
    ensures
        v == (v / 1000 % 10) * 1000 + (v / 100 % 10) * 100 + (v / 10 % 10) * 10 + v % 10,
{
    vstd::arithmetic::div_mod::lemma_fundamental_div_mod(v, 10);
    vstd::arithmetic::div_mod::lemma_fundamental_div_mod(v / 10, 10);
    vstd::arithmetic::div_mod::lemma_fundamental_div_mod(v / 100, 10);
    vstd::arithmetic::div_mod::lemma_div_denominator(v, 10, 10);
    vstd::arithmetic::div_mod::lemma_div_denominator(v, 100, 10);
}

/// A value below 1000000 is the weighted sum of its six decimal digits.
proof fn lemma_digits6_complete(v: int)
    requires
        0 <= v < 1000000,
    ensures
        v == (v / 100000 % 10) * 100000 + (v / 10000 % 10) * 10000 + (v / 1000 % 10) * 1000 + (v
            / 100 % 10) * 100 + (v / 10 % 10) * 10 + v % 10,
{
    vstd::arithmetic::div_mod::lemma_fundamental_div_mod(v, 10);
    vstd::arithmetic::div_mod::lemma_fundamental_div_mod(v / 10, 10);
    vstd::arithmetic::div_mod::lemma_fundamental_div_mod(v / 100, 10);
    vstd::arithmetic::div_mod::lemma_fundamental_div_mod(v / 1000, 10);
    vstd::arithmetic::div_mod::lemma_fundamental_div_mod(v / 10000, 10);
    vstd::arithmetic::div_mod::lemma_div_denominator(v, 10, 10);
    vstd::arithmetic::div_mod::lemma_div_denominator(v, 100, 10);
    vstd::arithmetic::div_mod::lemma_div_denominator(v, 1000, 10);
    vstd::arithmetic::div_mod::lemma_div_denominator(v, 10000, 10);
}

proof fn lemma_digits2_inj(a: int, b: int)
    requires
        0 <= a < 100,
        0 <= b < 100,
        digits2(a) == digits2(b),
    ensures
        a == b,
{
    assert(digits2(a)[0] == digits2(b)[0] && digits2(a)[1] == digits2(b)[1]);
    assert(a / 10 % 10 == a / 10 && a % 10 + 10 * (a / 10) == a);
    assert(b / 10 % 10 == b / 10 && b % 10 + 10 * (b / 10) == b);
}

proof fn lemma_digits4_inj(a: int, b: int)
    requires
        0 <= a < 10000,
        0 <= b < 10000,
        digits4(a) == digits4(b),
    ensures
        a == b,
{
    assert(digits4(a)[0] == digits4(b)[0] && digits4(a)[1] == digits4(b)[1] && digits4(a)[2]
        == digits4(b)[2] && digits4(a)[3] == digits4(b)[3]);
    lemma_digits4_complete(a);
    lemma_digits4_complete(b);
}

proof fn lemma_digits6_inj(a: int, b: int)
    requires
        0 <= a < 1000000,
        0 <= b < 1000000,
        digits6(a) == digits6(b),
    ensures
        a == b,
{
    assert(digits6(a)[0] == digits6(b)[0] && digits6(a)[1] == digits6(b)[1] && digits6(a)[2]
        == digits6(b)[2] && digits6(a)[3] == digits6(b)[3] && digits6(a)[4] == digits6(b)[4]
        && digits6(a)[5] == digits6(b)[5]);
    lemma_digits6_complete(a);
    lemma_digits6_complete(b);
}

proof fn lemma_tt_inj(a: TaskType, b: TaskType)
    requires
        tt_bytes(a) == tt_bytes(b),
    ensures
        a == b,
{
    assert(tt_bytes(a)[0] == tt_bytes(b)[0] && tt_bytes(a)[2] == tt_bytes(b)[2]);
}

proof fn lemma_ts_inj(a: Timestamp, b: Timestamp)
    requires
        valid_timestamp(a),
        valid_timestamp(b),
        ts_bytes(a) == ts_bytes(b),
    ensures
        a == b,
{
    lemma_ts_layout(a);
    lemma_ts_layout(b);
    lemma_digits4_inj(a.year as int, b.year as int);
    lemma_digits2_inj(a.month as int, b.month as int);
    lemma_digits2_inj(a.day as int, b.day as int);
    lemma_digits2_inj(a.hour as int, b.hour as int);
    lemma_digits2_inj(a.minute as int, b.minute as int);
    lemma_digits2_inj(a.second as int, b.second as int);
    lemma_digits6_inj(a.micro as int, b.micro as int);
}

/// `pow16(32)` is exactly the number of 128-bit values.
proof fn lemma_pow16_32()
    ensures
        pow16(32) == 0x1_00000000_00000000_00000000_00000000,
{
    reveal_with_fuel(pow16, 33);
}

proof fn lemma_hex_digit_inj(a: int, b: int)
    requires
        0 <= a < 16,
        0 <= b < 16,
        hex_digit(a) == hex_digit(b),
    ensures
        a == b,
{
}

proof fn lemma_uuid_inj(a: u128, b: u128)
    requires
        uuid_bytes(a as int) == uuid_bytes(b as int),
    ensures
        a == b,
{
    lemma_pow16_32();
    lemma_base16_of_nibbles(a as int, 32);
    lemma_base16_of_nibbles(b as int, 32);
    let na = nibbles_low(a as int, 32);
    let nb = nibbles_low(b as int, 32);
    assert forall|p: int| 0 <= p < 32 implies na[p] == nb[p] by {
        lemma_uuid_positions(31 - p);
        let k = uuid_digit_pos(31 - p);
        assert(uuid_bytes(a as int)[k] == uuid_bytes(b as int)[k]);
        assert(uuid_bytes(a as int)[k] == hex_digit(na[p]));
        assert(uuid_bytes(b as int)[k] == hex_digit(nb[p]));
        lemma_hex_digit_inj(na[p], nb[p]);
    }
    assert(na =~= nb);
    assert(base16_val(na.reverse()) == a as int);
    assert(base16_val(nb.reverse()) == b as int);
}

fn parse2(p: &[u8], s: usize) -> (r: Option<u8>)
    requires
        s + 2 <= p@.len(),
        p@.len() <= usize::MAX,
    ensures
        r matches Some(v) ==> v < 100 && p@.subrange(s as int, s as int + 2) == digits2(v as int),
        r is None ==> forall|x: int| 0 <= x < 100 ==> p@.subrange(s as int, s as int + 2)
            != digits2(x),
{
    let b0 = p[s];
    let b1 = p[s + 1];
    if 48 <= b0 && b0 <= 57 && 48 <= b1 && b1 <= 57 {
        let v = (b0 - 48) * 10 + (b1 - 48);
        proof {
            assert(p@.subrange(s as int, s as int + 2) =~= digits2(v as int));
        }
        Some(v)
    } else {
        proof {
            assert forall|x: int| 0 <= x < 100 implies p@.subrange(s as int, s as int + 2)
                != digits2(x) by {
                assert(digits2(x)[0] == dec_digit(x / 10 % 10) && digits2(x)[1] == dec_digit(
                    x % 10,
                ));
            }
        }
        None
    }
}

fn parse4(p: &[u8], s: usize) -> (r: Option<u16>)
    requires
        s + 4 <= p@.len(),
        p@.len() <= usize::MAX,
    ensures
        r matches Some(v) ==> v < 10000 && p@.subrange(s as int, s as int + 4) == digits4(
            v as int,
        ),
        r is None ==> forall|x: int| 0 <= x < 10000 ==> p@.subrange(s as int, s as int + 4)
            != digits4(x),
{
    let b0 = p[s];
    let b1 = p[s + 1];
    let b2 = p[s + 2];
    let b3 = p[s + 3];
    if 48 <= b0 && b0 <= 57 && 48 <= b1 && b1 <= 57 && 48 <= b2 && b2 <= 57 && 48 <= b3 && b3
        <= 57 {
        let v: u16 = (b0 - 48) as u16 * 1000 + (b1 - 48) as u16 * 100 + (b2 - 48) as u16 * 10 + (
        b3 - 48) as u16;
        proof {
            let a = (b0 - 48) as int;
            let b = (b1 - 48) as int;
            let c = (b2 - 48) as int;
            let d = (b3 - 48) as int;
            let w = v as int;
            vstd::arithmetic::div_mod::lemma_fundamental_div_mod_converse_div(
                w,
                1000,
                a,
                b * 100 + c * 10 + d,
            );
            vstd::arithmetic::div_mod::lemma_fundamental_div_mod_converse_div(
                w,
                100,
                a * 10 + b,
                c * 10 + d,
            );
            vstd::arithmetic::div_mod::lemma_fundamental_div_mod_converse_div(
                w,
                10,
                a * 100 + b * 10 + c,
                d,
            );
            vstd::arithmetic::div_mod::lemma_fundamental_div_mod_converse_mod(
                w,
                10,
                a * 100 + b * 10 + c,
                d,
            );
            vstd::arithmetic::div_mod::lemma_fundamental_div_mod_converse_mod(a * 10 + b, 10, a, b);
            vstd::arithmetic::div_mod::lemma_fundamental_div_mod_converse_mod(
                a * 100 + b * 10 + c,
                10,
                a * 10 + b,
                c,
            );
            vstd::arithmetic::div_mod::lemma_fundamental_div_mod_converse_mod(a, 10, 0, a);
            assert(p@.subrange(s as int, s as int + 4) =~= digits4(v as int));
        }
        Some(v)
    } else {
        proof {
            assert forall|x: int| 0 <= x < 10000 implies p@.subrange(s as int, s as int + 4)
                != digits4(x) by {
                assert(digits4(x)[0] == dec_digit(x / 1000 % 10));
                assert(digits4(x)[1] == dec_digit(x / 100 % 10));
                assert(digits4(x)[2] == dec_digit(x / 10 % 10));
                assert(digits4(x)[3] == dec_digit(x % 10));
            }
        }
        None
    }
}

fn parse6(p: &[u8], s: usize) -> (r: Option<u32>)
    requires
        s + 6 <= p@.len(),
        p@.len() <= usize::MAX,
    ensures
        r matches Some(v) ==> v < 1000000 && p@.subrange(s as int, s as int + 6) == digits6(
            v as int,
        ),
        r is None ==> forall|x: int| 0 <= x < 1000000 ==> p@.subrange(s as int, s as int + 6)
            != digits6(x),
{
    let b0 = p[s];
    let b1 = p[s + 1];
    let b2 = p[s + 2];
    let b3 = p[s + 3];
    let b4 = p[s + 4];
    let b5 = p[s + 5];
    if 48 <= b0 && b0 <= 57 && 48 <= b1 && b1 <= 57 && 48 <= b2 && b2 <= 57 && 48 <= b3 && b3
        <= 57 && 48 <= b4 && b4 <= 57 && 48 <= b5 && b5 <= 57 {
        let v: u32 = (b0 - 48) as u32 * 100000 + (b1 - 48) as u32 * 10000 + (b2 - 48) as u32
            * 1000 + (b3 - 48) as u32 * 100 + (b4 - 48) as u32 * 10 + (b5 - 48) as u32;
        proof {
            let a = (b0 - 48) as int;
            let b = (b1 - 48) as int;
            let c = (b2 - 48) as int;
            let d = (b3 - 48) as int;
            let e = (b4 - 48) as int;
            let f = (b5 - 48) as int;
            let w = v as int;
            vstd::arithmetic::div_mod::lemma_fundamental_div_mod_converse_div(
                w,
                100000,
                a,
                b * 10000 + c * 1000 + d * 100 + e * 10 + f,
            );
            vstd::arithmetic::div_mod::lemma_fundamental_div_mod_converse_div(
                w,
                10000,
                a * 10 + b,
                c * 1000 + d * 100 + e * 10 + f,
            );
            vstd::arithmetic::div_mod::lemma_fundamental_div_mod_converse_div(
                w,
                1000,
                a * 100 + b * 10 + c,
                d * 100 + e * 10 + f,
            );
            vstd::arithmetic::div_mod::lemma_fundamental_div_mod_converse_div(
                w,
                100,
                a * 1000 + b * 100 + c * 10 + d,
                e * 10 + f,
            );
            vstd::arithmetic::div_mod::lemma_fundamental_div_mod_converse_div(
                w,
                10,
                a * 10000 + b * 1000 + c * 100 + d * 10 + e,
                f,
            );
            vstd::arithmetic::div_mod::lemma_fundamental_div_mod_converse_mod(
                w,
                10,
                a * 10000 + b * 1000 + c * 100 + d * 10 + e,
                f,
            );
            vstd::arithmetic::div_mod::lemma_fundamental_div_mod_converse_mod(a, 10, 0, a);
            vstd::arithmetic::div_mod::lemma_fundamental_div_mod_converse_mod(a * 10 + b, 10, a, b);
            vstd::arithmetic::div_mod::lemma_fundamental_div_mod_converse_mod(
                a * 100 + b * 10 + c,
                10,
                a * 10 + b,
                c,
            );
            vstd::arithmetic::div_mod::lemma_fundamental_div_mod_converse_mod(
                a * 1000 + b * 100 + c * 10 + d,
                10,
                a * 100 + b * 10 + c,
                d,
            );
            vstd::arithmetic::div_mod::lemma_fundamental_div_mod_converse_mod(
                a * 10000 + b * 1000 + c * 100 + d * 10 + e,
                10,
                a * 1000 + b * 100 + c * 10 + d,
                e,
            );
            assert(p@.subrange(s as int, s as int + 6) =~= digits6(v as int));
        }
        Some(v)
    } else {
        proof {
            assert forall|x: int| 0 <= x < 1000000 implies p@.subrange(s as int, s as int + 6)
                != digits6(x) by {
                assert(digits6(x)[0] == dec_digit(x / 100000 % 10));
                assert(digits6(x)[1] == dec_digit(x / 10000 % 10));
                assert(digits6(x)[2] == dec_digit(x / 1000 % 10));
                assert(digits6(x)[3] == dec_digit(x / 100 % 10));
                assert(digits6(x)[4] == dec_digit(x / 10 % 10));
                assert(digits6(x)[5] == dec_digit(x % 10));
            }
        }
        None
    }
}

fn parse_task_type(p: &[u8], s: usize) -> (r: Option<TaskType>)
    requires
        s + 3 <= p@.len(),
        p@.len() <= usize::MAX,
    ensures
        r matches Some(tt) ==> p@.subrange(s as int, s as int + 3) == tt_bytes(tt),
        r is None ==> forall|tt: TaskType| p@.subrange(s as int, s as int + 3) != tt_bytes(tt),
{
    let b0 = p[s];
    let b1 = p[s + 1];
    let b2 = p[s + 2];
    if b0 == 102 && b1 == 111 && b2 == 111 {
        proof {
            assert(p@.subrange(s as int, s as int + 3) =~= tt_bytes(TaskType::Foo));
        }
        Some(TaskType::Foo)
    } else if b0 == 98 && b1 == 97 && b2 == 114 {
        proof {
            assert(p@.subrange(s as int, s as int + 3) =~= tt_bytes(TaskType::Bar));
        }
        Some(TaskType::Bar)
    } else if b0 == 98 && b1 == 97 && b2 == 122 {
        proof {
            assert(p@.subrange(s as int, s as int + 3) =~= tt_bytes(TaskType::Baz));
        }
        Some(TaskType::Baz)
    } else {
        proof {
            assert forall|tt: TaskType| p@.subrange(s as int, s as int + 3) != tt_bytes(tt) by {
                assert(tt_bytes(tt)[0] == p@[s as int] && tt_bytes(tt)[1] == p@[s as int + 1]
                    && tt_bytes(tt)[2] == p@[s as int + 2] ==> false);
            }
        }
        None
    }
}

#[verifier::rlimit(100)]
fn parse_uuid(p: &[u8], s: usize) -> (r: Option<u128>)
    requires
        s + 36 <= p@.len(),
        p@.len() <= usize::MAX,
    ensures
        r matches Some(v) ==> p@.subrange(s as int, s as int + 36) == uuid_bytes(v as int),
        r is None ==> forall|v: u128| p@.subrange(s as int, s as int + 36) != uuid_bytes(
            v as int,
        ),
{
    let ghost region = p@.subrange(s as int, s as int + 36);
    if p[s + 8] != 45 || p[s + 13] != 45 || p[s + 18] != 45 || p[s + 23] != 45 {
        proof {
            assert forall|v: u128| region != uuid_bytes(v as int) by {
                assert(uuid_bytes(v as int)[8] == 45 && uuid_bytes(v as int)[13] == 45
                    && uuid_bytes(v as int)[18] == 45 && uuid_bytes(v as int)[23] == 45);
            }
        }
        return None;
    }
    let mut v: u128 = 0;
    let ghost mut ds: Seq<int> = Seq::empty();
    let mut q: usize = 0;
    while q < 32
        invariant
            q <= 32,
            s + 36 <= p@.len(),
            p@.len() <= usize::MAX,
            region == p@.subrange(s as int, s as int + 36),
            ds.len() == q,
            nibbles_in_range(ds),
            v as int == base16_val(ds),
            forall|j: int| 0 <= j < q ==> p@[s + uuid_digit_pos(j)] == hex_digit(#[trigger] ds[j]),
        decreases 32 - q,
    {
        let pos: usize = s + (if q < 8 {
            q
        } else if q < 12 {
            q + 1
        } else if q < 16 {
            q + 2
        } else if q < 20 {
            q + 3
        } else {
            q + 4
        });
        proof {
            lemma_uuid_positions(q as int);
            assert(pos == s + uuid_digit_pos(q as int));
        }
        let b = p[pos];
        let d: u8 = if 48 <= b && b <= 57 {
            b - 48
        } else if 97 <= b && b <= 102 {
            b - 87
        } else {
            proof {
                lemma_pow16_32();
                assert forall|v2: u128| region != uuid_bytes(v2 as int) by {
                    lemma_base16_of_nibbles(v2 as int, 32);
                    lemma_uuid_positions(q as int);
                    let k = uuid_digit_pos(q as int);
                    let nb = nibbles_low(v2 as int, 32)[31 - (k - hyphens_before(k))];
                    assert(uuid_bytes(v2 as int)[k] == hex_digit(nb));
                    assert(0 <= nb < 16) by {
                        assert(nibbles_low(v2 as int, 32)[31 - (k - hyphens_before(k))]
                            == nibbles_low(v2 as int, 32)[31 - q as int]);
                    }
                    assert(region[k] == p@[s + k]);
                    assert(p@[s + k] != hex_digit(nb));
                }
            }
            return None;
        };
        proof {
            lemma_nibbles_of_base16(ds);
            lemma_pow16_monotone(q as nat, 31);
            lemma_pow16_32();
            assert((v as int) * 16 + d < pow16(32)) by {
                assert(v as int <= pow16(q as nat) - 1);
                assert((v as int) * 16 <= (pow16(q as nat) - 1) * 16) by (nonlinear_arith)
                    requires
                        v as int <= pow16(q as nat) - 1,
                ;
                assert(pow16((q + 1) as nat) == 16 * pow16(q as nat));
                lemma_pow16_monotone((q + 1) as nat, 32);
            }
        }
        let ghost ds0 = ds;
        v = v * 16 + (d as u128);
        proof {
            ds = ds.push(d as int);
            assert(ds.drop_last() =~= ds0);
            assert(ds.last() == d as int);
            assert(v as int == base16_val(ds));
        }
        q = q + 1;
    }
    proof {
        lemma_nibbles_of_base16(ds);
        assert(nibbles_low(v as int, 32) == ds.reverse());
        assert(region =~= uuid_bytes(v as int)) by {
            assert forall|k: int| 0 <= k < 36 implies region[k] == uuid_bytes(v as int)[k] by {
                if uuid_hyphen(k) {
                    assert(region[k] == p@[s + k]);
                } else {
                    let j = k - hyphens_before(k);
                    assert(0 <= j < 32);
                    lemma_uuid_positions(j);
                    assert(uuid_digit_pos(j) == k);
                    assert(p@[s + k] == hex_digit(ds[j]));
                    assert(uuid_bytes(v as int)[k] == hex_digit(nibbles_low(v as int, 32)[31 - j]));
                    assert(ds.reverse()[31 - j] == ds[j]);
                }
            }
        }
    }
    Some(v)
}

/// The field regions a rendered timestamp pins down in its surrounding bytes.
proof fn lemma_ts_region_fields(p: Seq<u8>, s: int, t2: Timestamp)
    requires
        0 <= s,
        s + 27 <= p.len(),
        p.subrange(s, s + 27) == ts_bytes(t2),
    ensures
        p.subrange(s, s + 4) == digits4(t2.year as int),
        p[s + 4] == 45u8,
        p.subrange(s + 5, s + 7) == digits2(t2.month as int),
        p[s + 7] == 45u8,
        p.subrange(s + 8, s + 10) == digits2(t2.day as int),
        p[s + 10] == 84u8,
        p.subrange(s + 11, s + 13) == digits2(t2.hour as int),
        p[s + 13] == 58u8,
        p.subrange(s + 14, s + 16) == digits2(t2.minute as int),
        p[s + 16] == 58u8,
        p.subrange(s + 17, s + 19) == digits2(t2.second as int),
        p[s + 19] == 46u8,
        p.subrange(s + 20, s + 26) == digits6(t2.micro as int),
        p[s + 26] == 90u8,
{
    lemma_ts_layout(t2);
    let region = p.subrange(s, s + 27);
    assert(p.subrange(s, s + 4) =~= region.subrange(0, 4));
    assert(p.subrange(s + 5, s + 7) =~= region.subrange(5, 7));
    assert(p.subrange(s + 8, s + 10) =~= region.subrange(8, 10));
    assert(p.subrange(s + 11, s + 13) =~= region.subrange(11, 13));
    assert(p.subrange(s + 14, s + 16) =~= region.subrange(14, 16));
    assert(p.subrange(s + 17, s + 19) =~= region.subrange(17, 19));
    assert(p.subrange(s + 20, s + 26) =~= region.subrange(20, 26));
    assert(p[s + 4] == region[4]);
    assert(p[s + 7] == region[7]);
    assert(p[s + 10] == region[10]);
    assert(p[s + 13] == region[13]);
    assert(p[s + 16] == region[16]);
    assert(p[s + 19] == region[19]);
    assert(p[s + 26] == region[26]);
}

/// And back: bytes that carry every field of `t` are its rendering.
proof fn lemma_ts_region_rebuild(p: Seq<u8>, s: int, t: Timestamp)
    requires
        0 <= s,
        s + 27 <= p.len(),
        p.subrange(s, s + 4) == digits4(t.year as int),
        p[s + 4] == 45u8,
        p.subrange(s + 5, s + 7) == digits2(t.month as int),
        p[s + 7] == 45u8,
        p.subrange(s + 8, s + 10) == digits2(t.day as int),
        p[s + 10] == 84u8,
        p.subrange(s + 11, s + 13) == digits2(t.hour as int),
        p[s + 13] == 58u8,
        p.subrange(s + 14, s + 16) == digits2(t.minute as int),
        p[s + 16] == 58u8,
        p.subrange(s + 17, s + 19) == digits2(t.second as int),
        p[s + 19] == 46u8,
        p.subrange(s + 20, s + 26) == digits6(t.micro as int),
        p[s + 26] == 90u8,
    ensures
        p.subrange(s, s + 27) == ts_bytes(t),
{
    lemma_ts_layout(t);
    let region = p.subrange(s, s + 27);
    assert(region =~= ts_bytes(t)) by {
        assert forall|k: int| 0 <= k < 27 implies region[k] == ts_bytes(t)[k] by {
            assert(region[k] == p[s + k]);
            if k < 4 {
                assert(ts_bytes(t)[k] == digits4(t.year as int)[k]);
                assert(p[s + k] == p.subrange(s, s + 4)[k]);
            } else if 5 <= k < 7 {
                assert(ts_bytes(t)[k] == digits2(t.month as int)[k - 5]);
                assert(p[s + k] == p.subrange(s + 5, s + 7)[k - 5]);
            } else if 8 <= k < 10 {
                assert(ts_bytes(t)[k] == digits2(t.day as int)[k - 8]);
                assert(p[s + k] == p.subrange(s + 8, s + 10)[k - 8]);
            } else if 11 <= k < 13 {
                assert(ts_bytes(t)[k] == digits2(t.hour as int)[k - 11]);
                assert(p[s + k] == p.subrange(s + 11, s + 13)[k - 11]);
            } else if 14 <= k < 16 {
                assert(ts_bytes(t)[k] == digits2(t.minute as int)[k - 14]);
                assert(p[s + k] == p.subrange(s + 14, s + 16)[k - 14]);
            } else if 17 <= k < 19 {
                assert(ts_bytes(t)[k] == digits2(t.second as int)[k - 17]);
                assert(p[s + k] == p.subrange(s + 17, s + 19)[k - 17]);
            } else if 20 <= k < 26 {
                assert(ts_bytes(t)[k] == digits6(t.micro as int)[k - 20]);
                assert(p[s + k] == p.subrange(s + 20, s + 26)[k - 20]);
            }
        }
    }
}

#[verifier::rlimit(100)]
fn parse_ts(p: &[u8], s: usize) -> (r: Option<Timestamp>)
    requires
        s + 27 <= p@.len(),
        p@.len() <= usize::MAX,
    ensures
        r matches Some(t) ==> valid_timestamp(t) && p@.subrange(s as int, s as int + 27)
            == ts_bytes(t),
        r is None ==> forall|t2: Timestamp| valid_timestamp(t2) ==> p@.subrange(
            s as int,
            s as int + 27,
        ) != ts_bytes(t2),
{
    let ghost region = p@.subrange(s as int, s as int + 27);
    let seps_ok = p[s + 4] == 45 && p[s + 7] == 45 && p[s + 10] == 84 && p[s + 13] == 58 && p[s
        + 16] == 58 && p[s + 19] == 46 && p[s + 26] == 90;
    let year_r = parse4(p, s);
    let month_r = parse2(p, s + 5);
    let day_r = parse2(p, s + 8);
    let hour_r = parse2(p, s + 11);
    let minute_r = parse2(p, s + 14);
    let second_r = parse2(p, s + 17);
    let micro_r = parse6(p, s + 20);
    if seps_ok && year_r.is_some() && month_r.is_some() && day_r.is_some() && hour_r.is_some()
        && minute_r.is_some() && second_r.is_some() && micro_r.is_some() {
        let year = year_r.unwrap();
        let month = month_r.unwrap();
        let day = day_r.unwrap();
        let hour = hour_r.unwrap();
        let minute = minute_r.unwrap();
        let second = second_r.unwrap();
        let micro = micro_r.unwrap();
        let ranges_ok = 1970 <= year && 1 <= month && month <= 12 && 1 <= day && day
            <= Timestamp::days_in_month_exec(year, month) && hour <= 23 && minute <= 59 && second
            <= 59;
        if ranges_ok {
            let t = Timestamp { year, month, day, hour, minute, second, micro };
            proof {
                lemma_ts_region_rebuild(p@, s as int, t);
            }
            Some(t)
        } else {
            proof {
                assert forall|t2: Timestamp| valid_timestamp(t2) implies region != ts_bytes(
                    t2,
                ) by {
                    if region == ts_bytes(t2) {
                        lemma_ts_region_fields(p@, s as int, t2);
                        lemma_digits4_inj(year as int, t2.year as int);
                        lemma_digits2_inj(month as int, t2.month as int);
                        lemma_digits2_inj(day as int, t2.day as int);
                        lemma_digits2_inj(hour as int, t2.hour as int);
                        lemma_digits2_inj(minute as int, t2.minute as int);
                        lemma_digits2_inj(second as int, t2.second as int);
                    }
                }
            }
            None
        }
    } else {
        proof {
            assert forall|t2: Timestamp| valid_timestamp(t2) implies region != ts_bytes(t2) by {
                if region == ts_bytes(t2) {
                    lemma_ts_region_fields(p@, s as int, t2);
                }
            }
        }
        None
    }
}
#[verifier::rlimit(100)]
pub fn decode_notification(payload: &[u8]) -> (r: Result<Notification, DecodeError>)
    ensures
        r matches Ok(n) ==> valid_notification(n) && payload@ == encode_spec(n),
        forall|n: Notification|
            valid_notification(n) && payload@ == #[trigger] encode_spec(n) ==> r == Ok::<
                Notification,
                DecodeError,
            >(n),
{
    let len = payload.len();
    if len == 4 {
        if payload[0] == 115 && payload[1] == 116 && payload[2] == 111 && payload[3] == 112 {
            proof {
                assert(payload@ =~= stop_bytes());
                assert forall|n: Notification|
                    valid_notification(n) && payload@ == #[trigger] encode_spec(n) implies n
                    == Notification::Stop by {
                    match n {
                        Notification::Stop => {},
                        Notification::NewTask(t) => {
                            lemma_new_task_layout(t);
                        },
                    }
                }
            }
            Ok(Notification::Stop)
        } else {
            proof {
                assert forall|n: Notification|
                    valid_notification(n) && payload@ == #[trigger] encode_spec(n) implies
                    false by {
                    match n {
                        Notification::Stop => {
                            assert(payload@[0] == stop_bytes()[0] && payload@[1] == stop_bytes()[1]
                                && payload@[2] == stop_bytes()[2] && payload@[3]
                                == stop_bytes()[3]);
                        },
                        Notification::NewTask(t) => {
                            lemma_new_task_layout(t);
                        },
                    }
                }
            }
            Err(DecodeError::Malformed)
        }
    } else if len == 119 {
        let lits_ok = payload[0] == 110 && payload[1] == 101 && payload[2] == 119 && payload[3]
            == 95 && payload[4] == 116 && payload[5] == 97 && payload[6] == 115 && payload[7]
            == 107 && payload[8] == 32 && payload[9] == 123 && payload[10] == 34 && payload[11]
            == 105 && payload[12] == 100 && payload[13] == 34 && payload[14] == 58 && payload[15]
            == 34 && payload[52] == 34 && payload[53] == 44 && payload[54] == 34 && payload[55]
            == 116 && payload[56] == 97 && payload[57] == 115 && payload[58] == 107 && payload[59]
            == 95 && payload[60] == 116 && payload[61] == 121 && payload[62] == 112 && payload[63]
            == 101 && payload[64] == 34 && payload[65] == 58 && payload[66] == 34 && payload[70]
            == 34 && payload[71] == 44 && payload[72] == 34 && payload[73] == 101 && payload[74]
            == 120 && payload[75] == 101 && payload[76] == 99 && payload[77] == 117 && payload[78]
            == 116 && payload[79] == 105 && payload[80] == 111 && payload[81] == 110 && payload[82]
            == 95 && payload[83] == 116 && payload[84] == 105 && payload[85] == 109 && payload[86]
            == 101 && payload[87] == 34 && payload[88] == 58 && payload[89] == 34 && payload[117]
            == 34 && payload[118] == 125;
        if !lits_ok {
            proof {
                assert forall|n: Notification|
                    valid_notification(n) && payload@ == #[trigger] encode_spec(n) implies
                    false by {
                    match n {
                        Notification::Stop => {},
                        Notification::NewTask(t) => {
                            lemma_new_task_layout(t);
                            assert(payload@.subrange(0, 9) == new_task_prefix());
                            assert(payload@.subrange(9, 16) == json_open());
                            assert(payload@.subrange(52, 67) == json_mid_type());
                            assert(payload@.subrange(70, 90) == json_mid_time());
                            assert(payload@.subrange(117, 119) == json_close());
                            assert(payload@[0] == new_task_prefix()[0]);
                            assert(payload@[1] == new_task_prefix()[1]);
                            assert(payload@[2] == new_task_prefix()[2]);
                            assert(payload@[3] == new_task_prefix()[3]);
                            assert(payload@[4] == new_task_prefix()[4]);
                            assert(payload@[5] == new_task_prefix()[5]);
                            assert(payload@[6] == new_task_prefix()[6]);
                            assert(payload@[7] == new_task_prefix()[7]);
                            assert(payload@[8] == new_task_prefix()[8]);
                            assert(payload@[9] == json_open()[0]);
                            assert(payload@[10] == json_open()[1]);
                            assert(payload@[11] == json_open()[2]);
                            assert(payload@[12] == json_open()[3]);
                            assert(payload@[13] == json_open()[4]);
                            assert(payload@[14] == json_open()[5]);
                            assert(payload@[15] == json_open()[6]);
                            assert(forall|j: int|
                                0 <= j < 15 ==> payload@[52 + j] == #[trigger] json_mid_type()[j]);
                            assert(forall|j: int|
                                0 <= j < 20 ==> payload@[70 + j] == #[trigger] json_mid_time()[j]);
                            assert(payload@[117] == json_close()[0]);
                            assert(payload@[118] == json_close()[1]);
                        },
                    }
                }
            }
            return Err(DecodeError::Malformed);
        }
        let id = match parse_uuid(payload, 16) {
            Some(v) => v,
            None => {
                proof {
                    assert forall|n: Notification|
                        valid_notification(n) && payload@ == #[trigger] encode_spec(n) implies
                        false by {
                        match n {
                            Notification::Stop => {},
                            Notification::NewTask(t) => {
                                lemma_new_task_layout(t);
                                assert(payload@.subrange(16, 52) == uuid_bytes(t.id as int));
                            },
                        }
                    }
                }
                return Err(DecodeError::Malformed);
            },
        };
        let task_type = match parse_task_type(payload, 67) {
            Some(tt) => tt,
            None => {
                proof {
                    assert forall|n: Notification|
                        valid_notification(n) && payload@ == #[trigger] encode_spec(n) implies
                        false by {
                        match n {
                            Notification::Stop => {},
                            Notification::NewTask(t) => {
                                lemma_new_task_layout(t);
                                assert(payload@.subrange(67, 70) == tt_bytes(t.task_type));
                            },
                        }
                    }
                }
                return Err(DecodeError::Malformed);
            },
        };
        let execution_time = match parse_ts(payload, 90) {
            Some(ts) => ts,
            None => {
                proof {
                    assert forall|n: Notification|
                        valid_notification(n) && payload@ == #[trigger] encode_spec(n) implies
                        false by {
                        match n {
                            Notification::Stop => {},
                            Notification::NewTask(t) => {
                                lemma_new_task_layout(t);
                                assert(payload@.subrange(90, 117) == ts_bytes(t.execution_time));
                            },
                        }
                    }
                }
                return Err(DecodeError::Malformed);
            },
        };
        let task = Task { id, task_type, execution_time };
        proof {
            lemma_new_task_layout(task);
            let m = encode_spec(Notification::NewTask(task));
            assert(payload@ =~= m) by {
                assert forall|k: int| 0 <= k < 119 implies payload@[k] == m[k] by {
                    if k < 9 {
                        assert(m[k] == new_task_prefix()[k]);
                    } else if k < 16 {
                        assert(m[k] == json_open()[k - 9]);
                    } else if k < 52 {
                        assert(m[k] == m.subrange(16, 52)[k - 16]);
                        assert(payload@[k] == payload@.subrange(16, 52)[k - 16]);
                    } else if k < 67 {
                        assert(m[k] == json_mid_type()[k - 52]);
                    } else if k < 70 {
                        assert(m[k] == m.subrange(67, 70)[k - 67]);
                        assert(payload@[k] == payload@.subrange(67, 70)[k - 67]);
                    } else if k < 90 {
                        assert(m[k] == json_mid_time()[k - 70]);
                    } else if k < 117 {
                        assert(m[k] == m.subrange(90, 117)[k - 90]);
                        assert(payload@[k] == payload@.subrange(90, 117)[k - 90]);
                    } else {
                        assert(m[k] == json_close()[k - 117]);
                    }
                }
            }
            assert forall|n: Notification|
                valid_notification(n) && payload@ == #[trigger] encode_spec(n) implies n
                == Notification::NewTask(task) by {
                match n {
                    Notification::Stop => {},
                    Notification::NewTask(t2) => {
                        lemma_new_task_layout(t2);
                        assert(uuid_bytes(t2.id as int) == uuid_bytes(task.id as int));
                        lemma_uuid_inj(t2.id, task.id);
                        assert(tt_bytes(t2.task_type) == tt_bytes(task.task_type));
                        lemma_tt_inj(t2.task_type, task.task_type);
                        assert(ts_bytes(t2.execution_time) == ts_bytes(task.execution_time));
                        lemma_ts_inj(t2.execution_time, task.execution_time);
                    },
                }
            }
        }
        Ok(Notification::NewTask(task))
    } else {
        proof {
            assert forall|n: Notification|
                valid_notification(n) && payload@ == #[trigger] encode_spec(n) implies false by {
                match n {
                    Notification::Stop => {},
                    Notification::NewTask(t) => {
                        lemma_new_task_layout(t);
                    },
                }
            }
        }
        Err(DecodeError::Malformed)
    }
}

} // verus!
