//! Socket addresses, and how they are written.

use vstd::prelude::*;

use crate::text;

verus! {

/// An IPv4 address, as its 32 bits, and a port.
#[derive(Clone, Copy, Debug, PartialEq, Eq, Structural)]
pub struct SocketAddrV4 {
    pub ip: u32,
    pub port: u16,
}

/// An IPv6 address, as its 128 bits, a port, a flow label and a scope.
#[derive(Clone, Copy, Debug, PartialEq, Eq, Structural)]
pub struct SocketAddrV6 {
    pub ip: u128,
    pub port: u16,
    pub flowinfo: u32,
    pub scope_id: u32,
}

/// The address of one end of a connection.
#[derive(Clone, Copy, Debug, PartialEq, Eq, Structural)]
pub enum SocketAddr {
    V4(SocketAddrV4),
    V6(SocketAddrV6),
}

/// An IPv4 address: its four bytes in decimal, with dots between them.
pub open spec fn dotted(ip: nat) -> Seq<char> {
    text::decimal(ip / 16777216 % 256) + "."@ + text::decimal(ip / 65536 % 256) + "."@
        + text::decimal(ip / 256 % 256) + "."@ + text::decimal(ip % 256)
}

/// The `n` lowest 16-bit groups of `ip`, most significant first.
pub open spec fn groups(ip: nat, n: nat) -> Seq<u16>
    decreases n,
{
    if n == 0 {
        Seq::empty()
    } else {
        groups(ip / 65536, (n - 1) as nat).push((ip % 65536) as u16)
    }
}

/// Groups in hexadecimal, with colons between them.
pub open spec fn colon_separated(gs: Seq<u16>) -> Seq<char>
    decreases gs.len(),
{
    if gs.len() == 0 {
        Seq::empty()
    } else if gs.len() == 1 {
        text::hexadecimal(gs[0] as nat)
    } else {
        colon_separated(gs.drop_last()) + ":"@ + text::hexadecimal(gs.last() as nat)
    }
}

/// The `len` groups from `start` on are all zero.
pub open spec fn zero_run(gs: Seq<u16>, start: int, len: int) -> bool {
    &&& 0 <= start && 0 <= len && start + len <= gs.len()
    &&& forall|i: int| start <= i < start + len ==> #[trigger] gs[i] == 0
}

/// The run of zeros that `::` stands for: the longest of at least two groups, and
/// of several such the first.
pub open spec fn elided(gs: Seq<u16>, start: int, len: int) -> bool {
    &&& len >= 2
    &&& zero_run(gs, start, len)
    &&& forall|s: int, l: int|
        #[trigger] zero_run(gs, s, l) ==> l < len || (l == len && start <= s)
}

/// The address stands for an IPv4 address (`::ffff:0:0/96`).
pub open spec fn is_mapped(gs: Seq<u16>) -> bool {
    zero_run(gs, 0, 5) && gs[5] == 0xffff
}

/// An IPv6 address of eight groups in its canonical form.
pub open spec fn canonical(gs: Seq<u16>) -> Seq<char> {
    if is_mapped(gs) {
        "::ffff:"@ + dotted((gs[6] as nat) * 65536 + gs[7] as nat)
    } else if exists|s: int, l: int| elided(gs, s, l) {
        let (s, l) = choose|s: int, l: int| elided(gs, s, l);
        colon_separated(gs.take(s)) + "::"@ + colon_separated(gs.skip(s + l))
    } else {
        colon_separated(gs)
    }
}

/// How an address is written.
pub open spec fn addr_text(addr: SocketAddr) -> Seq<char> {
    match addr {
        SocketAddr::V4(a) => dotted(a.ip as nat) + ":"@ + text::decimal(a.port as nat),
        SocketAddr::V6(a) => "["@ + canonical(groups(a.ip as nat, 8)) + (if a.scope_id == 0 {
            Seq::empty()
        } else {
            "%"@ + text::decimal(a.scope_id as nat)
        }) + "]:"@ + text::decimal(a.port as nat),
    }
}

fn push_dotted(out: &mut String, ip: u32)
    ensures
        final(out)@ == old(out)@ + dotted(ip as nat),
{
    text::push_decimal(out, (ip / 16777216 % 256) as u64);
    out.append(".");
    text::push_decimal(out, (ip / 65536 % 256) as u64);
    out.append(".");
    text::push_decimal(out, (ip / 256 % 256) as u64);
    out.append(".");
    text::push_decimal(out, (ip % 256) as u64);
    assert(out@ =~= old(out)@ + dotted(ip as nat));
}

fn push_groups(out: &mut Vec<u16>, ip: u128, n: usize)
    ensures
        final(out)@ == old(out)@ + groups(ip as nat, n as nat),
    decreases n,
{
    if n > 0 {
        push_groups(out, ip / 65536, n - 1);
        out.push((ip % 65536) as u16);
    }
    assert(out@ =~= old(out)@ + groups(ip as nat, n as nat));
}

proof fn lemma_groups_len(ip: nat, n: nat)
    ensures
        groups(ip, n).len() == n,
    decreases n,
{
    if n > 0 {
        lemma_groups_len(ip / 65536, (n - 1) as nat);
    }
}

fn push_colon_separated(out: &mut String, gs: &[u16])
    ensures
        final(out)@ == old(out)@ + colon_separated(gs@),
{
    let mut i: usize = 0;
    assert(gs@.take(0) =~= Seq::empty());
    assert(out@ =~= old(out)@ + colon_separated(gs@.take(0)));
    while i < gs.len()
        invariant
            i <= gs@.len(),
            out@ == old(out)@ + colon_separated(gs@.take(i as int)),
        decreases gs@.len() - i,
    {
        if i > 0 {
            out.append(":");
        }
        text::push_hexadecimal(out, gs[i] as u64);
        assert(gs@.take(i + 1).drop_last() =~= gs@.take(i as int));
        assert(out@ =~= old(out)@ + colon_separated(gs@.take(i + 1)));
        i = i + 1;
    }
    assert(gs@.take(gs@.len() as int) =~= gs@);
}

/// The first of the longest runs of zeros, as its start and its length.
fn longest_zero_run(gs: &[u16]) -> (r: (usize, usize))
    ensures
        zero_run(gs@, r.0 as int, r.1 as int),
        forall|s: int, l: int|
            #[trigger] zero_run(gs@, s, l) ==> l <= 0 || l < r.1 || (l == r.1 && r.0 <= s),
{
    let mut start: usize = 0;
    let mut len: usize = 0;
    let mut current: usize = 0;
    let mut i: usize = 0;
    while i < gs.len()
        invariant
            current <= i <= gs@.len(),
            start + len <= i,
            zero_run(gs@, start as int, len as int),
            zero_run(gs@, i - current, current as int),
            i > current ==> gs@[i - current - 1] != 0,
            forall|s: int, l: int|
                s + l <= i && #[trigger] zero_run(gs@, s, l) ==> l <= 0 || l < len || (l == len
                    && start <= s),
        decreases gs@.len() - i,
    {
        let ghost old_len = len;
        let ghost old_start = start;
        if gs[i] == 0 {
            current = current + 1;
            if current > len {
                start = i + 1 - current;
                len = current;
            }
        } else {
            current = 0;
        }
        i = i + 1;
        proof {
            assert forall|s: int, l: int| s + l <= i && #[trigger] zero_run(gs@, s, l) implies l
                <= 0 || l < len || (l == len && start <= s) by {
                if s + l == i && l > 0 {
                    assert(gs@[i - 1] == 0);
                    if l > current {
                        assert(gs@[i - current - 1] == 0);
                    }
                }
            }
        }
    }
    (start, len)
}

proof fn lemma_elided_unique(gs: Seq<u16>, s1: int, l1: int, s2: int, l2: int)
    requires
        elided(gs, s1, l1),
        elided(gs, s2, l2),
    ensures
        s1 == s2 && l1 == l2,
{
    assert(zero_run(gs, s1, l1));
    assert(zero_run(gs, s2, l2));
}

fn push_canonical(out: &mut String, gs: &[u16])
    requires
        gs@.len() == 8,
    ensures
        final(out)@ == old(out)@ + canonical(gs@),
{
    let (start, len) = longest_zero_run(gs);
    if gs[0] == 0 && gs[1] == 0 && gs[2] == 0 && gs[3] == 0 && gs[4] == 0 && gs[5] == 0xffff {
        assert(is_mapped(gs@));
        out.append("::ffff:");
        push_dotted(out, (gs[6] as u32) * 65536 + gs[7] as u32);
        assert(out@ =~= old(out)@ + canonical(gs@));
        return;
    }
    assert(!is_mapped(gs@));
    if len >= 2 {
        push_colon_separated(out, vstd::slice::slice_subrange(gs, 0, start));
        out.append("::");
        push_colon_separated(out, vstd::slice::slice_subrange(gs, start + len, gs.len()));
        proof {
            assert(elided(gs@, start as int, len as int));
            let (s, l) = choose|s: int, l: int| elided(gs@, s, l);
            lemma_elided_unique(gs@, s, l, start as int, len as int);
            assert(gs@.subrange(0, start as int) =~= gs@.take(s));
            assert(gs@.subrange(start + len, 8) =~= gs@.skip(s + l));
        }
    } else {
        push_colon_separated(out, gs);
        assert forall|s: int, l: int| !elided(gs@, s, l) by {
            if elided(gs@, s, l) {
                assert(zero_run(gs@, s, l));
            }
        }
    }
    assert(out@ =~= old(out)@ + canonical(gs@));
}

impl SocketAddr {
    /// Writes the address at the end of `out`.
    pub fn push_text(&self, out: &mut String)
        ensures
            final(out)@ == old(out)@ + addr_text(*self),
    {
        match self {
            SocketAddr::V4(a) => {
                push_dotted(out, a.ip);
                out.append(":");
                text::push_decimal(out, a.port as u64);
            },
            SocketAddr::V6(a) => {
                let mut gs: Vec<u16> = Vec::new();
                push_groups(&mut gs, a.ip, 8);
                proof {
                    lemma_groups_len(a.ip as nat, 8);
                    assert(gs@ =~= groups(a.ip as nat, 8));
                }
                out.append("[");
                push_canonical(out, gs.as_slice());
                if a.scope_id != 0 {
                    out.append("%");
                    text::push_decimal(out, a.scope_id as u64);
                }
                out.append("]:");
                text::push_decimal(out, a.port as u64);
            },
        }
        assert(out@ =~= old(out)@ + addr_text(*self));
    }

    /// The address as text.
    pub fn to_text(&self) -> (s: String)
        ensures
            s@ == addr_text(*self),
    {
        let mut out = String::new();
        self.push_text(&mut out);
        assert(out@ =~= addr_text(*self));
        out
    }
}

/// An IPv4 address is written as its four bytes and the port, each in decimal.
pub proof fn law_v4_text(a: u8, b: u8, c: u8, d: u8, port: u16)
    ensures
        ({
            let ip = (a * 16777216 + b * 65536 + c * 256 + d) as u32;
            &&& addr_text(SocketAddr::V4(SocketAddrV4 { ip, port })) == text::decimal(a as nat)
                + "."@ + text::decimal(b as nat) + "."@ + text::decimal(c as nat) + "."@
                + text::decimal(d as nat) + ":"@ + text::decimal(port as nat)
        }),
{
    lemma_dotted(a, b, c, d);
}

#[verifier::spinoff_prover]
proof fn lemma_dotted(a: u8, b: u8, c: u8, d: u8)
    ensures
        dotted((a * 16777216 + b * 65536 + c * 256 + d) as nat) == text::decimal(a as nat) + "."@
            + text::decimal(b as nat) + "."@ + text::decimal(c as nat) + "."@ + text::decimal(
            d as nat,
        ),
{
    lemma_four_bytes(a as int, b as int, c as int, d as int);
}

proof fn lemma_last_byte(front: int, last: int)
    requires
        0 <= front,
        0 <= last < 256,
    ensures
        (front * 256 + last) / 256 == front,
        (front * 256 + last) % 256 == last,
{
}

proof fn lemma_four_bytes(a: int, b: int, c: int, d: int)
    requires
        0 <= a < 256,
        0 <= b < 256,
        0 <= c < 256,
        0 <= d < 256,
    ensures
        ({
            let ip = a * 16777216 + b * 65536 + c * 256 + d;
            &&& ip / 16777216 % 256 == a
            &&& ip / 65536 % 256 == b
            &&& ip / 256 % 256 == c
            &&& ip % 256 == d
        }),
{
    let ip = a * 16777216 + b * 65536 + c * 256 + d;
    let two = a * 256 + b;
    let three = two * 256 + c;
    lemma_last_byte(three, d);
    lemma_last_byte(two, c);
    lemma_last_byte(a, b);
    assert(ip == three * 256 + d);
    assert(ip / 65536 == two);
    assert(ip / 16777216 == a);
}

/// Every IPv4 address is one of those that `law_v4_text` speaks of.
pub proof fn law_every_ip_has_four_bytes(ip: u32) -> (bytes: (u8, u8, u8, u8))
    ensures
        ip == bytes.0 * 16777216 + bytes.1 * 65536 + bytes.2 * 256 + bytes.3,
{
    (
        (ip / 16777216) as u8,
        (ip / 65536 % 256) as u8,
        (ip / 256 % 256) as u8,
        (ip % 256) as u8,
    )
}

/// The address whose 16-bit groups are `gs`, most significant first.
pub open spec fn ip_of(gs: Seq<u16>) -> nat
    decreases gs.len(),
{
    if gs.len() == 0 {
        0
    } else {
        ip_of(gs.drop_last()) * 65536 + gs.last() as nat
    }
}

proof fn lemma_groups_of(gs: Seq<u16>)
    ensures
        groups(ip_of(gs), gs.len()) == gs,
    decreases gs.len(),
{
    if gs.len() > 0 {
        lemma_groups_of(gs.drop_last());
        assert(ip_of(gs) / 65536 == ip_of(gs.drop_last()));
        assert(gs.drop_last().push(gs.last()) =~= gs);
    } else {
        assert(groups(ip_of(gs), gs.len()) =~= gs);
    }
}

proof fn lemma_ip_fits(gs: Seq<u16>)
    requires
        gs.len() == 8,
    ensures
        ip_of(gs) <= u128::MAX,
{
    reveal_with_fuel(ip_of, 9);
}

/// An IPv6 address is written in brackets as its eight groups, with the scope behind
/// them if there is one, and then the port; the flow label is not written.
pub proof fn law_v6_text(gs: Seq<u16>, port: u16, flowinfo: u32, scope_id: u32)
    requires
        gs.len() == 8,
    ensures
        ip_of(gs) <= u128::MAX,
        ({
            let ip = ip_of(gs) as u128;
            let s = addr_text(SocketAddr::V6(SocketAddrV6 { ip, port, flowinfo, scope_id }));
            &&& scope_id == 0 ==> s == "["@ + canonical(gs) + "]:"@ + text::decimal(port as nat)
            &&& scope_id != 0 ==> s == "["@ + canonical(gs) + "%"@ + text::decimal(scope_id as nat)
                + "]:"@ + text::decimal(port as nat)
        }),
{
    lemma_groups_of(gs);
    lemma_ip_fits(gs);
    let ip = ip_of(gs) as u128;
    let s = addr_text(SocketAddr::V6(SocketAddrV6 { ip, port, flowinfo, scope_id }));
    if scope_id == 0 {
        assert(s =~= "["@ + canonical(gs) + "]:"@ + text::decimal(port as nat));
    } else {
        assert(s =~= "["@ + canonical(gs) + "%"@ + text::decimal(scope_id as nat) + "]:"@
            + text::decimal(port as nat));
    }
}

/// Every IPv6 address is one of those that `law_v6_text` speaks of.
pub proof fn law_every_ip_has_eight_groups(ip: u128) -> (gs: Seq<u16>)
    ensures
        gs.len() == 8,
        ip_of(gs) == ip,
{
    lemma_groups_len(ip as nat, 8);
    lemma_ip_of_groups(ip as nat, 8);
    assert(pow65536(8) == 0x1_0000_0000_0000_0000_0000_0000_0000_0000) by {
        reveal_with_fuel(pow65536, 9);
    }
    groups(ip as nat, 8)
}

spec fn pow65536(n: nat) -> nat
    decreases n,
{
    if n == 0 {
        1
    } else {
        65536 * pow65536((n - 1) as nat)
    }
}

proof fn lemma_ip_of_groups(ip: nat, n: nat)
    ensures
        ip < pow65536(n) ==> ip_of(groups(ip, n)) == ip,
    decreases n,
{
    if n > 0 {
        lemma_ip_of_groups(ip / 65536, (n - 1) as nat);
        assert(groups(ip, n).drop_last() =~= groups(ip / 65536, (n - 1) as nat));
    }
}

/// Groups are written in hexadecimal, with one colon between two of them and none
/// elsewhere.
pub proof fn law_groups_are_joined(a: Seq<u16>, b: Seq<u16>)
    ensures
        a.len() == 0 ==> colon_separated(a).len() == 0,
        a.len() == 1 ==> colon_separated(a) == text::hexadecimal(a[0] as nat),
        a.len() > 0 && b.len() > 0 ==> colon_separated(a + b) == colon_separated(a) + ":"@
            + colon_separated(b),
    decreases b.len(),
{
    if a.len() > 0 && b.len() > 0 {
        let front = b.drop_last();
        assert((a + b).drop_last() =~= a + front);
        assert((a + b).last() == b.last());
        if front.len() == 0 {
            assert(a + front =~= a);
        } else {
            law_groups_are_joined(a, front);
            assert(colon_separated(a + b) =~= colon_separated(a) + ":"@ + colon_separated(b));
        }
    }
}

/// There are `len` groups from `start` on, and all of them are zero.
pub open spec fn only_zeros(gs: Seq<u16>, start: int, len: int) -> bool {
    &&& 0 <= start
    &&& 0 <= len
    &&& start + len <= gs.len()
    &&& forall|i: int| 0 <= i < len ==> #[trigger] gs[start + i] == 0
}

proof fn lemma_only_zeros(gs: Seq<u16>, start: int, len: int)
    ensures
        only_zeros(gs, start, len) <==> zero_run(gs, start, len),
{
    if only_zeros(gs, start, len) {
        assert forall|i: int| start <= i < start + len implies #[trigger] gs[i] == 0 by {
            assert(gs[start + (i - start)] == 0);
        }
    }
}

/// An address that stands for an IPv4 address is written with it.
#[verifier::spinoff_prover]
pub proof fn law_mapped_address(a: u8, b: u8, c: u8, d: u8)
    ensures
        canonical(
            seq![0u16, 0u16, 0u16, 0u16, 0u16, 0xffffu16, (a * 256 + b) as u16, (c * 256 + d) as u16],
        ) == "::ffff:"@ + (text::decimal(a as nat) + "."@ + text::decimal(b as nat) + "."@
            + text::decimal(c as nat) + "."@ + text::decimal(d as nat)),
{
    let gs = seq![
        0u16,
        0u16,
        0u16,
        0u16,
        0u16,
        0xffffu16,
        (a * 256 + b) as u16,
        (c * 256 + d) as u16,
    ];
    assert(is_mapped(gs));
    lemma_dotted(a, b, c, d);
    assert((gs[6] as nat) * 65536 + gs[7] as nat == (a * 16777216 + b * 65536 + c * 256 + d) as nat);
}

/// The first of the longest runs of zeros, if it has two groups at least, is written as
/// `::`, once, between the groups before it and those behind it.
pub proof fn law_zeros_are_left_out(gs: Seq<u16>, start: int, len: int)
    requires
        gs.len() == 8,
        !(only_zeros(gs, 0, 5) && gs[5] == 0xffff),
        len >= 2,
        only_zeros(gs, start, len),
        forall|s: int, l: int|
            #[trigger] only_zeros(gs, s, l) ==> l < len || (l == len && start <= s),
    ensures
        canonical(gs) == colon_separated(gs.subrange(0, start)) + "::"@ + colon_separated(
            gs.subrange(start + len, 8),
        ),
{
    lemma_only_zeros(gs, 0, 5);
    lemma_only_zeros(gs, start, len);
    assert forall|s: int, l: int| #[trigger] zero_run(gs, s, l) implies l < len || (l == len && start
        <= s) by {
        lemma_only_zeros(gs, s, l);
    }
    assert(elided(gs, start, len));
    let (s, l) = choose|s: int, l: int| elided(gs, s, l);
    lemma_elided_unique(gs, s, l, start, len);
    assert(gs.subrange(0, start) =~= gs.take(s));
    assert(gs.subrange(start + len, 8) =~= gs.skip(s + l));
}

/// Without two zeros next to each other all eight groups are written.
pub proof fn law_all_groups_are_written(gs: Seq<u16>)
    requires
        gs.len() == 8,
        forall|i: int| 0 <= i < 7 ==> #[trigger] gs[i] != 0 || gs[i + 1] != 0,
    ensures
        canonical(gs) == colon_separated(gs),
{
    assert(gs[0] != 0 || gs[1] != 0);
    assert forall|s: int, l: int| !elided(gs, s, l) by {
        if elided(gs, s, l) {
            assert(gs[s] == 0 && gs[s + 1] == 0);
        }
    }
}

} // verus!
