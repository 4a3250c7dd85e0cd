use vstd::prelude::*;

verus! {

/// Value of a hexadecimal digit, if the character is one.
pub open spec fn hex_digit_value(c: char) -> Option<nat> {
    if '0' <= c <= '9' {
        Some((c as nat - '0' as nat) as nat)
    } else if 'A' <= c <= 'F' {
        Some((c as nat - 'A' as nat + 10) as nat)
    } else if 'a' <= c <= 'f' {
        Some((c as nat - 'a' as nat + 10) as nat)
    } else {
        None
    }
}

pub open spec fn is_hex_string(s: Seq<char>) -> bool {
    forall|i: int| 0 <= i < s.len() ==> (#[trigger] hex_digit_value(s[i])) is Some
}

/// The four bits of a hexadecimal digit value, most significant first.
pub open spec fn nibble_bits(d: nat) -> Seq<char> {
    seq![
        if (d / 8) % 2 == 1 { '1' } else { '0' },
        if (d / 4) % 2 == 1 { '1' } else { '0' },
        if (d / 2) % 2 == 1 { '1' } else { '0' },
        if d % 2 == 1 { '1' } else { '0' },
    ]
}

/// The bit string that a hexadecimal string stands for.
pub open spec fn hex_bits(s: Seq<char>) -> Seq<char>
    decreases s.len(),
{
    if s.len() == 0 {
        seq![]
    } else {
        hex_bits(s.drop_last()) + nibble_bits(hex_digit_value(s.last()).unwrap_or(0))
    }
}

/// The unsigned number written in binary by `bits[from..to]`.
pub open spec fn bits_value(bits: Seq<char>, from: int, to: int) -> nat
    decreases to - from,
{
    if to <= from {
        0
    } else {
        bits_value(bits, from, to - 1) * 2 + if bits[to - 1] == '1' {
            1nat
        } else {
            0nat
        }
    }
}

/// Every character of `bits[from..to]` is '0' or '1'.
pub open spec fn is_binary(bits: Seq<char>, from: int, to: int) -> bool {
    forall|i: int| from <= i < to ==> #[trigger] bits[i] == '0' || bits[i] == '1'
}

pub open spec fn pow2(n: nat) -> nat
    decreases n,
{
    if n == 0 {
        1
    } else {
        2 * pow2((n - 1) as nat)
    }
}

pub proof fn lemma_bits_value_bound(bits: Seq<char>, from: int, to: int)
    requires
        from <= to,
    ensures
        bits_value(bits, from, to) < pow2((to - from) as nat),
    decreases to - from,
{
    if to > from {
        lemma_bits_value_bound(bits, from, to - 1);
    }
}

/// A decoded packet, as a mathematical tree.
pub enum PacketModel {
    Literal { version: nat, value: nat },
    Operator { version: nat, type_id: nat, children: Seq<PacketModel> },
}

/// The groups of a literal starting at `idx`: the value they build onto `acc`
/// and the position after the last group.
pub open spec fn literal_groups(bits: Seq<char>, idx: int, acc: nat) -> Option<(nat, int)>
    decreases bits.len() - idx,
{
    if idx < 0 || idx + 5 > bits.len() || !is_binary(bits, idx + 1, idx + 5) {
        None
    } else {
        let v = acc * 16 + bits_value(bits, idx + 1, idx + 5);
        if bits[idx] == '1' {
            literal_groups(bits, idx + 5, v)
        } else {
            Some((v, idx + 5))
        }
    }
}

/// The packet that starts at `idx`, and the position right after it.
pub open spec fn parse_packet(bits: Seq<char>, idx: int) -> Option<(PacketModel, int)>
    decreases bits.len() - idx, 1nat, 0nat,
{
    if idx < 0 || idx + 6 > bits.len() || !is_binary(bits, idx, idx + 6) {
        None
    } else {
        let version = bits_value(bits, idx, idx + 3);
        let type_id = bits_value(bits, idx + 3, idx + 6);
        if type_id == 4 {
            match literal_groups(bits, idx + 6, 0) {
                Some((v, e)) => if v <= u64::MAX {
                    Some((PacketModel::Literal { version, value: v }, e))
                } else {
                    None
                },
                None => None,
            }
        } else if idx + 7 > bits.len() {
            None
        } else if bits[idx + 6] == '0' {
            if idx + 22 > bits.len() || !is_binary(bits, idx + 7, idx + 22) {
                None
            } else {
                match parse_by_length(bits, idx + 22, bits_value(bits, idx + 7, idx + 22)) {
                    Some((cs, e)) => Some(
                        (PacketModel::Operator { version, type_id, children: cs }, e),
                    ),
                    None => None,
                }
            }
        } else {
            if idx + 18 > bits.len() || !is_binary(bits, idx + 7, idx + 18) {
                None
            } else {
                match parse_by_count(bits, idx + 18, bits_value(bits, idx + 7, idx + 18)) {
                    Some((cs, e)) => Some(
                        (PacketModel::Operator { version, type_id, children: cs }, e),
                    ),
                    None => None,
                }
            }
        }
    }
}

/// Consecutive packets from `idx` that fill exactly `remaining` bits.
pub open spec fn parse_by_length(bits: Seq<char>, idx: int, remaining: nat) -> Option<
    (Seq<PacketModel>, int),
>
    decreases bits.len() - idx, 2nat, remaining,
{
    if remaining == 0 {
        Some((seq![], idx))
    } else {
        match parse_packet(bits, idx) {
            None => None,
            Some((p, e)) => if e <= idx || e > bits.len() || e - idx > remaining {
                None
            } else {
                match parse_by_length(bits, e, (remaining - (e - idx)) as nat) {
                    None => None,
                    Some((ps, e2)) => Some((seq![p] + ps, e2)),
                }
            },
        }
    }
}

/// `count` consecutive packets from `idx`.
pub open spec fn parse_by_count(bits: Seq<char>, idx: int, count: nat) -> Option<
    (Seq<PacketModel>, int),
>
    decreases bits.len() - idx, 2nat, count,
{
    if count == 0 {
        Some((seq![], idx))
    } else {
        match parse_packet(bits, idx) {
            None => None,
            Some((p, e)) => if e <= idx || e > bits.len() {
                None
            } else {
                match parse_by_count(bits, e, (count - 1) as nat) {
                    None => None,
                    Some((ps, e2)) => Some((seq![p] + ps, e2)),
                }
            },
        }
    }
}

/// A literal packet.
pub struct ValuePacket {
    pub version: u32,
    pub value: u64,
}

/// An operator packet and its sub-packets, in order.
pub struct OperatorPacket {
    pub version: u32,
    pub type_id: u32,
    pub packets: Vec<Packet>,
}

pub enum Packet {
    LiteralValue(ValuePacket),
    Operator(OperatorPacket),
}

impl Packet {
    pub open spec fn view(&self) -> PacketModel
        decreases self, 0nat,
    {
        match self {
            Packet::LiteralValue(v) => PacketModel::Literal {
                version: v.version as nat,
                value: v.value as nat,
            },
            Packet::Operator(o) => PacketModel::Operator {
                version: o.version as nat,
                type_id: o.type_id as nat,
                children: packets_view(o.packets@, o.packets@.len() as int),
            },
        }
    }
}

/// The models of the first `n` packets of `ps`.
pub open spec fn packets_view(ps: Seq<Packet>, n: int) -> Seq<PacketModel>
    decreases ps, n,
{
    if n <= 0 || n > ps.len() {
        seq![]
    } else {
        packets_view(ps, n - 1).push(ps[n - 1].view())
    }
}

pub proof fn lemma_packets_view(ps: Seq<Packet>, n: int)
    requires
        0 <= n <= ps.len(),
    ensures
        packets_view(ps, n).len() == n,
        forall|i: int| 0 <= i < n ==> #[trigger] packets_view(ps, n)[i] == ps[i]@,
    decreases n,
{
    if n > 0 {
        lemma_packets_view(ps, n - 1);
    }
}

/// The sum of the versions of a packet and of all packets nested in it.
pub open spec fn version_sum(p: PacketModel) -> nat
    decreases p, 0nat,
{
    match p {
        PacketModel::Literal { version, .. } => version,
        PacketModel::Operator { version, children, .. } => version + children_version_sum(
            children,
            children.len() as int,
        ),
    }
}

pub open spec fn children_version_sum(cs: Seq<PacketModel>, n: int) -> nat
    decreases cs, n,
{
    if n <= 0 || n > cs.len() {
        0
    } else {
        children_version_sum(cs, n - 1) + version_sum(cs[n - 1])
    }
}

/// The value of a packet, or `None` where an operator has too few or too many
/// operands, has an unknown type, or a sum or product leaves `u64`.
pub open spec fn evaluate(p: PacketModel) -> Option<nat>
    decreases p, 1nat, 0int,
{
    match p {
        PacketModel::Literal { value, .. } => Some(value),
        PacketModel::Operator { type_id, children, .. } => {
            let n = children.len() as int;
            if type_id == 0 {
                fold_sum(children, n)
            } else if type_id == 1 {
                fold_product(children, n)
            } else if type_id == 2 || type_id == 3 {
                if n == 0 {
                    None
                } else {
                    fold_extreme(children, n, type_id == 3)
                }
            } else if 5 <= type_id <= 7 {
                if n != 2 {
                    None
                } else {
                    match (evaluate(children[0]), evaluate(children[1])) {
                        (Some(a), Some(b)) => Some(
                            if (type_id == 5 && a > b) || (type_id == 6 && a < b) || (type_id == 7
                                && a == b) {
                                1nat
                            } else {
                                0nat
                            },
                        ),
                        _ => None,
                    }
                }
            } else {
                None
            }
        },
    }
}

/// Sum of the values of the first `n` packets, added from the left, failing
/// where a partial sum leaves `u64`.
pub open spec fn fold_sum(cs: Seq<PacketModel>, n: int) -> Option<nat>
    decreases cs, 0nat, n,
{
    if n <= 0 || n > cs.len() {
        Some(0)
    } else {
        match (fold_sum(cs, n - 1), evaluate(cs[n - 1])) {
            (Some(a), Some(b)) => if a + b <= u64::MAX {
                Some(a + b)
            } else {
                None
            },
            _ => None,
        }
    }
}

/// Product of the values of the first `n` packets, multiplied from the left,
/// failing where a partial product leaves `u64`.
pub open spec fn fold_product(cs: Seq<PacketModel>, n: int) -> Option<nat>
    decreases cs, 0nat, n,
{
    if n <= 0 || n > cs.len() {
        Some(1)
    } else {
        match (fold_product(cs, n - 1), evaluate(cs[n - 1])) {
            (Some(a), Some(b)) => if a * b <= u64::MAX {
                Some(a * b)
            } else {
                None
            },
            _ => None,
        }
    }
}

/// Minimum (or, with `max`, maximum) of the values of the first `n >= 1` packets.
pub open spec fn fold_extreme(cs: Seq<PacketModel>, n: int, max: bool) -> Option<nat>
    decreases cs, 0nat, n,
{
    if n <= 0 || n > cs.len() {
        None
    } else if n == 1 {
        evaluate(cs[0])
    } else {
        match (fold_extreme(cs, n - 1, max), evaluate(cs[n - 1])) {
            (Some(a), Some(b)) => Some(
                if max {
                    if b > a {
                        b
                    } else {
                        a
                    }
                } else {
                    if b < a {
                        b
                    } else {
                        a
                    }
                },
            ),
            _ => None,
        }
    }
}

/// Reads `n` bits from `from` as an unsigned number.
fn read_bits(bits: &[char], from: usize, n: usize) -> (r: Option<u64>)
    requires
        from + n <= bits@.len(),
        n <= 15,
    ensures
        r is Some <==> is_binary(bits@, from as int, from + n),
        r matches Some(v) ==> v == bits_value(bits@, from as int, from + n) && v < pow2(n as nat),
{
    let len = bits.len();
    let mut v: u64 = 0;
    let mut i: usize = 0;
    proof {
        lemma_pow2_15();
    }
    while i < n
        invariant
            i <= n,
            len == bits@.len(),
            n <= 15,
            from + n <= bits@.len(),
            v == bits_value(bits@, from as int, from + i),
            v < pow2(i as nat),
            pow2(15) == 32768,
            is_binary(bits@, from as int, from + i),
        decreases n - i,
    {
        proof {
            lemma_pow2_mono(i as nat, 15);
        }
        let c = bits[from + i];
        if c != '0' && c != '1' {
            return None;
        }
        let b: u64 = if c == '1' {
            1
        } else {
            0
        };
        v = v * 2 + b;
        i = i + 1;
    }
    Some(v)
}

pub proof fn lemma_pow2_mono(a: nat, b: nat)
    requires
        a <= b,
    ensures
        pow2(a) <= pow2(b),
    decreases b,
{
    if a < b {
        lemma_pow2_mono(a, (b - 1) as nat);
    }
}

proof fn lemma_pow2_15()
    ensures
        pow2(15) == 32768,
{
    reveal_with_fuel(pow2, 16);
}

/// Once the value built so far exceeds `u64`, the literal cannot fit in `u64`.
proof fn lemma_literal_grows(bits: Seq<char>, idx: int, acc: nat)
    ensures
        match literal_groups(bits, idx, acc) {
            Some((v, _)) => v >= acc,
            None => true,
        },
    decreases bits.len() - idx,
{
    if !(idx < 0 || idx + 5 > bits.len()) {
        let v = acc * 16 + bits_value(bits, idx + 1, idx + 5);
        if bits[idx] == '1' {
            lemma_literal_grows(bits, idx + 5, v);
        }
    }
}

/// Reads the groups of a literal from `idx`.
fn read_literal(bits: &[char], idx: usize) -> (r: Option<(u64, usize)>)
    ensures
        match r {
            Some((v, e)) => literal_groups(bits@, idx as int, 0) == Some((v as nat, e as int)),
            None => match literal_groups(bits@, idx as int, 0) {
                Some((v, _)) => v > u64::MAX,
                None => true,
            },
        },
        r matches Some((_, e)) ==> idx < e <= bits@.len(),
{
    let len = bits.len();
    let mut i = idx;
    let mut value: u64 = 0;
    proof {
        lemma_pow2_15();
        reveal_with_fuel(pow2, 5);
    }
    loop
        invariant
            idx <= i,
            len == bits@.len(),
            literal_groups(bits@, idx as int, 0) == literal_groups(bits@, i as int, value as nat),
            pow2(4) == 16,
            pow2(15) == 32768,
        decreases len - i,
    {
        if i > len || len - i < 5 {
            return None;
        }
        let group = match read_bits(bits, i + 1, 4) {
            Some(g) => g,
            None => {
                return None;
            },
        };
        let ghost next: nat = (value * 16 + group) as nat;
        if value >= 0x1000_0000_0000_0000 {
            proof {
                if bits@[i as int] == '1' {
                    lemma_literal_grows(bits@, i + 5, next);
                }
            }
            return None;
        }
        value = value * 16 + group;
        if bits[i] != '1' {
            return Some((value, i + 5));
        }
        i = i + 5;
    }
}

/// What `parse_packet` gives, stated of an executable result.
pub open spec fn parse_result_matches(
    bits: Seq<char>,
    idx: int,
    r: Option<(Packet, usize)>,
) -> bool {
    match r {
        Some((p, e)) => parse_packet(bits, idx) == Some((p@, e as int)),
        None => parse_packet(bits, idx) is None,
    }
}

/// Decodes the packet that starts at bit `idx`, with the position right after
/// it, or `None` where the bits do not hold a whole packet there.
pub fn read_packets(bits: &[char], idx: usize) -> (r: Option<(Packet, usize)>)
    ensures
        parse_result_matches(bits@, idx as int, r),
        r matches Some((_, e)) ==> idx < e <= bits@.len(),
    decreases bits@.len() - idx,
{
    let len = bits.len();
    if idx > len || len - idx < 6 {
        return None;
    }
    let version = match read_bits(bits, idx, 3) {
        Some(v) => v,
        None => {
            return None;
        },
    };
    let type_id = match read_bits(bits, idx + 3, 3) {
        Some(v) => v,
        None => {
            return None;
        },
    };
    assert(is_binary(bits@, idx as int, idx + 6));
    proof {
        reveal_with_fuel(pow2, 4);
        lemma_pow2_15();
        lemma_pow2_mono(11, 15);
    }
    if type_id == 4 {
        match read_literal(bits, idx + 6) {
            Some((value, e)) => {
                let p = Packet::LiteralValue(ValuePacket { version: version as u32, value });
                return Some((p, e));
            },
            None => {
                return None;
            },
        }
    }
    if len - idx < 7 {
        return None;
    }
    let mut sub_packets: Vec<Packet> = Vec::new();
    let mut i: usize;
    if bits[idx + 6] == '0' {
        if len - idx < 22 {
            return None;
        }
        let total = match read_bits(bits, idx + 7, 15) {
            Some(v) => v,
            None => {
                return None;
            },
        };
        let mut remaining: usize = total as usize;
        i = idx + 22;
        while remaining > 0
            invariant
                idx + 22 <= i <= len,
                len == bits@.len(),
                total == bits_value(bits@, idx + 7, idx + 22),
                bits@[idx + 6] == '0',
                version == bits_value(bits@, idx as int, idx + 3),
                type_id == bits_value(bits@, idx + 3, idx + 6),
                type_id != 4,
                parse_by_length(bits@, idx + 22, total as nat) == match parse_by_length(
                    bits@,
                    i as int,
                    remaining as nat,
                ) {
                    Some((ps, e)) => Some((sub_packets@.map_values(|q: Packet| q@) + ps, e)),
                    None => None,
                },
            decreases remaining,
        {
            match read_packets(bits, i) {
                Some((sub, e)) => {
                    if e - i > remaining {
                        assert(parse_by_length(bits@, i as int, remaining as nat) is None);
                        return None;
                    }
                    remaining = remaining - (e - i);
                    let ghost before = sub_packets@;
                    sub_packets.push(sub);
                    proof {
                        assert(sub_packets@.map_values(|q: Packet| q@) =~= before.map_values(
                            |q: Packet| q@,
                        ).push(sub@));
                        assert(forall|ps: Seq<PacketModel>|
                            before.map_values(|q: Packet| q@) + (seq![sub@] + ps)
                                =~= sub_packets@.map_values(|q: Packet| q@) + ps);
                    }
                    i = e;
                },
                None => {
                    assert(parse_by_length(bits@, i as int, remaining as nat) is None);
                    return None;
                },
            }
        }
        assert(sub_packets@.map_values(|q: Packet| q@) + seq![] =~= sub_packets@.map_values(
            |q: Packet| q@,
        ));
    } else {
        if len - idx < 18 {
            return None;
        }
        let total = match read_bits(bits, idx + 7, 11) {
            Some(v) => v,
            None => {
                return None;
            },
        };
        let mut k: u64 = 0;
        i = idx + 18;
        while k < total
            invariant
                idx + 18 <= i <= len,
                len == bits@.len(),
                total == bits_value(bits@, idx + 7, idx + 18),
                bits@[idx + 6] != '0',
                version == bits_value(bits@, idx as int, idx + 3),
                type_id == bits_value(bits@, idx + 3, idx + 6),
                type_id != 4,
                k <= total,
                parse_by_count(bits@, idx + 18, total as nat) == match parse_by_count(
                    bits@,
                    i as int,
                    (total - k) as nat,
                ) {
                    Some((ps, e)) => Some((sub_packets@.map_values(|q: Packet| q@) + ps, e)),
                    None => None,
                },
            decreases total - k,
        {
            match read_packets(bits, i) {
                Some((sub, e)) => {
                    let ghost before = sub_packets@;
                    sub_packets.push(sub);
                    proof {
                        assert(sub_packets@.map_values(|q: Packet| q@) =~= before.map_values(
                            |q: Packet| q@,
                        ).push(sub@));
                        assert(forall|ps: Seq<PacketModel>|
                            before.map_values(|q: Packet| q@) + (seq![sub@] + ps)
                                =~= sub_packets@.map_values(|q: Packet| q@) + ps);
                    }
                    i = e;
                    k = k + 1;
                },
                None => {
                    assert(parse_by_count(bits@, i as int, (total - k) as nat) is None);
                    return None;
                },
            }
        }
        assert(sub_packets@.map_values(|q: Packet| q@) + seq![] =~= sub_packets@.map_values(
            |q: Packet| q@,
        ));
    }
    proof {
        lemma_packets_view(sub_packets@, sub_packets@.len() as int);
        assert(packets_view(sub_packets@, sub_packets@.len() as int) =~= sub_packets@.map_values(
            |q: Packet| q@,
        ));
    }
    let p = Packet::Operator(
        OperatorPacket { version: version as u32, type_id: type_id as u32, packets: sub_packets },
    );
    Some((p, i))
}

pub proof fn lemma_children_version_sum_grows(cs: Seq<PacketModel>, k: int, n: int)
    requires
        0 <= k <= n <= cs.len(),
    ensures
        children_version_sum(cs, k) <= children_version_sum(cs, n),
    decreases n - k,
{
    if k < n {
        lemma_children_version_sum_grows(cs, k, n - 1);
    }
}

/// The sum of the versions in a packet tree, or `None` where it leaves `u32`.
#[verifier::loop_isolation(false)]
pub fn sum_versions(packet: &Packet) -> (r: Option<u32>)
    ensures
        r == (if version_sum(packet@) <= u32::MAX {
            Some(version_sum(packet@) as u32)
        } else {
            None::<u32>
        }),
    decreases packet,
{
    match packet {
        Packet::LiteralValue(val) => Some(val.version),
        Packet::Operator(val) => {
            let n = val.packets.len();
            let ghost cs = packet_children(packet);
            proof {
                lemma_packets_view(val.packets@, n as int);
            }
            let mut sum: u32 = val.version;
            let mut i: usize = 0;
            while i < n
                invariant
                    i <= n,
                    n == val.packets@.len(),
                    cs == packets_view(val.packets@, n as int),
                    cs.len() == n,
                    forall|j: int| 0 <= j < n ==> #[trigger] cs[j] == val.packets@[j]@,
                    sum == val.version + children_version_sum(cs, i as int),
                decreases n - i,
            {
                match sum_versions(&val.packets[i]) {
                    Some(v) => {
                        if sum > u32::MAX - v {
                            proof {
                                lemma_children_version_sum_grows(cs, i + 1, n as int);
                            }
                            return None;
                        }
                        sum = sum + v;
                    },
                    None => {
                        proof {
                            lemma_children_version_sum_grows(cs, i + 1, n as int);
                        }
                        return None;
                    },
                }
                i = i + 1;
            }
            Some(sum)
        },
    }
}

/// The children of an operator packet, as models.
pub open spec fn packet_children(p: &Packet) -> Seq<PacketModel> {
    match p {
        Packet::Operator(o) => packets_view(o.packets@, o.packets@.len() as int),
        Packet::LiteralValue(_) => seq![],
    }
}

/// Once a fold has failed, folding in more packets cannot succeed.
pub proof fn lemma_folds_stay_failed(cs: Seq<PacketModel>, k: int, n: int, max: bool)
    requires
        1 <= k <= n <= cs.len(),
    ensures
        fold_sum(cs, k) is None ==> fold_sum(cs, n) is None,
        fold_product(cs, k) is None ==> fold_product(cs, n) is None,
        fold_extreme(cs, k, max) is None ==> fold_extreme(cs, n, max) is None,
    decreases n - k,
{
    if k < n {
        lemma_folds_stay_failed(cs, k, n - 1, max);
    }
}

/// The value of a packet tree, or `None` where it has no value in `u64`
/// (see `evaluate`).
#[verifier::loop_isolation(false)]
pub fn calculate_packets(packet: &Packet) -> (r: Option<u64>)
    ensures
        match r {
            Some(v) => evaluate(packet@) == Some(v as nat),
            None => evaluate(packet@) is None,
        },
    decreases packet,
{
    match packet {
        Packet::LiteralValue(val) => Some(val.value),
        Packet::Operator(val) => {
            let n = val.packets.len();
            let ghost cs = packet_children(packet);
            proof {
                lemma_packets_view(val.packets@, n as int);
                assert(cs.len() == n);
            }
            if val.type_id == 0 || val.type_id == 1 {
                let is_sum = val.type_id == 0;
                let mut acc: u64 = if is_sum {
                    0
                } else {
                    1
                };
                let mut i: usize = 0;
                while i < n
                    invariant
                        i <= n,
                        if is_sum {
                            fold_sum(cs, i as int) == Some(acc as nat)
                        } else {
                            fold_product(cs, i as int) == Some(acc as nat)
                        },
                    decreases n - i,
                {
                    let next = calculate_packets(&val.packets[i]);
                    proof {
                        lemma_folds_stay_failed(cs, i + 1, n as int, false);
                    }
                    match next {
                        Some(v) => {
                            let step = if is_sum {
                                acc.checked_add(v)
                            } else {
                                acc.checked_mul(v)
                            };
                            match step {
                                Some(a) => {
                                    acc = a;
                                },
                                None => {
                                    return None;
                                },
                            }
                        },
                        None => {
                            return None;
                        },
                    }
                    i = i + 1;
                }
                Some(acc)
            } else if val.type_id == 2 || val.type_id == 3 {
                if n == 0 {
                    return None;
                }
                let is_max = val.type_id == 3;
                let mut acc: u64 = match calculate_packets(&val.packets[0]) {
                    Some(v) => v,
                    None => {
                        proof {
                            lemma_folds_stay_failed(cs, 1, n as int, is_max);
                        }
                        return None;
                    },
                };
                let mut i: usize = 1;
                while i < n
                    invariant
                        1 <= i <= n,
                        fold_extreme(cs, i as int, is_max) == Some(acc as nat),
                    decreases n - i,
                {
                    let next = calculate_packets(&val.packets[i]);
                    proof {
                        lemma_folds_stay_failed(cs, i + 1, n as int, is_max);
                    }
                    match next {
                        Some(v) => {
                            if (is_max && v > acc) || (!is_max && v < acc) {
                                acc = v;
                            }
                        },
                        None => {
                            return None;
                        },
                    }
                    i = i + 1;
                }
                Some(acc)
            } else if 5 <= val.type_id && val.type_id <= 7 {
                if n != 2 {
                    return None;
                }
                let a = match calculate_packets(&val.packets[0]) {
                    Some(v) => v,
                    None => {
                        return None;
                    },
                };
                let b = match calculate_packets(&val.packets[1]) {
                    Some(v) => v,
                    None => {
                        return None;
                    },
                };
                let holds = if val.type_id == 5 {
                    a > b
                } else if val.type_id == 6 {
                    a < b
                } else {
                    a == b
                };
                Some(
                    if holds {
                        1
                    } else {
                        0
                    },
                )
            } else {
                None
            }
        },
    }
}

fn hex_digit(c: char) -> (r: Option<u32>)
    ensures
        match r {
            Some(d) => hex_digit_value(c) == Some(d as nat),
            None => hex_digit_value(c) is None,
        },
{
    if '0' <= c && c <= '9' {
        Some((c as u32) - ('0' as u32))
    } else if 'A' <= c && c <= 'F' {
        Some((c as u32) - ('A' as u32) + 10)
    } else if 'a' <= c && c <= 'f' {
        Some((c as u32) - ('a' as u32) + 10)
    } else {
        None
    }
}

/// Spells each hexadecimal digit of `s` as four bits, most significant first;
/// `None` where `s` holds a character that is no hexadecimal digit.
pub fn hex_to_binary(s: &str) -> (r: Option<Vec<char>>)
    ensures
        match r {
            Some(bits) => is_hex_string(s@) && bits@ == hex_bits(s@),
            None => !is_hex_string(s@),
        },
{
    let n = s.unicode_len();
    let mut bits: Vec<char> = Vec::new();
    let mut i: usize = 0;
    while i < n
        invariant
            i <= n,
            n == s@.len(),
            is_hex_string(s@.subrange(0, i as int)),
            bits@ == hex_bits(s@.subrange(0, i as int)),
        decreases n - i,
    {
        let c = s.get_char(i);
        let d = match hex_digit(c) {
            Some(d) => d,
            None => {
                assert(hex_digit_value(s@[i as int]) is None);
                return None;
            },
        };
        proof {
            assert(s@.subrange(0, i + 1).drop_last() =~= s@.subrange(0, i as int));
            assert(s@.subrange(0, i + 1).last() == c);
        }
        bits.push(if (d / 8) % 2 == 1 { '1' } else { '0' });
        bits.push(if (d / 4) % 2 == 1 { '1' } else { '0' });
        bits.push(if (d / 2) % 2 == 1 { '1' } else { '0' });
        bits.push(if d % 2 == 1 { '1' } else { '0' });
        proof {
            assert(bits@ =~= hex_bits(s@.subrange(0, i + 1)));
            assert forall|j: int| 0 <= j < i + 1 implies (#[trigger] hex_digit_value(
                s@.subrange(0, i + 1)[j],
            )) is Some by {
                if j < i {
                    assert(s@.subrange(0, i + 1)[j] == s@.subrange(0, i as int)[j]);
                }
            }
        }
        i = i + 1;
    }
    assert(s@.subrange(0, n as int) =~= s@);
    Some(bits)
}

/// The version sum of the packet that a hexadecimal transmission holds.
pub fn part1(packet: &str) -> (r: Option<u32>)
    ensures
        r is Some <==> is_hex_string(packet@) && match parse_packet(hex_bits(packet@), 0) {
            Some((p, _)) => version_sum(p) <= u32::MAX,
            None => false,
        },
        r matches Some(v) ==> parse_packet(hex_bits(packet@), 0) matches Some((p, _))
            && v == version_sum(p),
{
    let stream = match hex_to_binary(packet) {
        Some(bits) => bits,
        None => {
            return None;
        },
    };
    match read_packets(stream.as_slice(), 0) {
        Some((p, _)) => sum_versions(&p),
        None => None,
    }
}

/// The value of the packet that a hexadecimal transmission holds.
pub fn part2(packet: &str) -> (r: Option<u64>)
    ensures
        r is Some <==> is_hex_string(packet@) && match parse_packet(hex_bits(packet@), 0) {
            Some((p, _)) => evaluate(p) is Some,
            None => false,
        },
        r matches Some(v) ==> parse_packet(hex_bits(packet@), 0) matches Some((p, _))
            && evaluate(p) == Some(v as nat),
{
    let stream = match hex_to_binary(packet) {
        Some(bits) => bits,
        None => {
            return None;
        },
    };
    match read_packets(stream.as_slice(), 0) {
        Some((p, _)) => calculate_packets(&p),
        None => None,
    }
}

/// Decoding is a function of the bits and the position: two decodings from
/// the same place give the same tree, the same end and the same value.
pub proof fn lemma_decoding_is_deterministic(
    bits: Seq<char>,
    idx: int,
    r1: Option<(Packet, usize)>,
    r2: Option<(Packet, usize)>,
)
    requires
        parse_result_matches(bits, idx, r1),
        parse_result_matches(bits, idx, r2),
    ensures
        r1 is Some <==> r2 is Some,
        r1 matches Some((first, first_end)) ==> r2 matches Some((second, second_end)) && first@ == second@ && first_end == second_end
            && evaluate(first@) == evaluate(second@) && version_sum(first@) == version_sum(second@),
{
}

/// The `k` binary digits of `v`, most significant first.
pub open spec fn bin_digits(v: nat, k: nat) -> Seq<char>
    decreases k,
{
    if k == 0 {
        seq![]
    } else {
        bin_digits(v / 2, (k - 1) as nat).push(if v % 2 == 1 {
            '1'
        } else {
            '0'
        })
    }
}

/// The groups of a literal holding the nibbles `bs`, most significant
/// first: each group is a continuation bit ('1' but for the last group) and
/// the nibble's four bits.
pub open spec fn literal_body(bs: Seq<nat>) -> Seq<char>
    decreases bs.len(),
{
    if bs.len() == 0 {
        seq![]
    } else {
        seq![if bs.len() > 1 {
            '1'
        } else {
            '0'
        }] + bin_digits(bs[0], 4) + literal_body(bs.drop_first())
    }
}

/// The value that the nibbles `bs` write after the nibbles already read
/// into `acc`.
pub open spec fn nibbles_value(acc: nat, bs: Seq<nat>) -> nat
    decreases bs.len(),
{
    if bs.len() == 0 {
        acc
    } else {
        nibbles_value(acc * 16 + bs[0], bs.drop_first())
    }
}

/// A literal packet of version `v` whose value the nibbles `bs` write.
pub open spec fn literal_packet(v: nat, bs: Seq<nat>) -> Seq<char> {
    bin_digits(v, 3) + bin_digits(4, 3) + literal_body(bs)
}

proof fn lemma_bin_digits(s: Seq<char>, from: int, v: nat, k: nat)
    requires
        v < pow2(k),
        0 <= from,
        from + k <= s.len(),
        forall|i: int| 0 <= i < k ==> s[from + i] == #[trigger] bin_digits(v, k)[i],
    ensures
        bin_digits(v, k).len() == k,
        bits_value(s, from, from + k) == v,
        is_binary(s, from, from + k),
    decreases k,
{
    if k > 0 {
        let d = bin_digits(v, k);
        let d1 = bin_digits(v / 2, (k - 1) as nat);
        assert(v / 2 < pow2((k - 1) as nat));
        assert forall|i: int| 0 <= i < k - 1 implies s[from + i] == #[trigger] d1[i] by {
            lemma_bin_len(v / 2, (k - 1) as nat);
            assert(d[i] == d1[i]);
        }
        lemma_bin_digits(s, from, v / 2, (k - 1) as nat);
        lemma_bin_len(v / 2, (k - 1) as nat);
        assert(s[from + k - 1] == d[k - 1]);
    }
}

proof fn lemma_bin_len(v: nat, k: nat)
    ensures
        bin_digits(v, k).len() == k,
    decreases k,
{
    if k > 0 {
        lemma_bin_len(v / 2, (k - 1) as nat);
    }
}

proof fn lemma_literal_body(s: Seq<char>, idx: int, acc: nat, bs: Seq<nat>)
    requires
        0 <= idx,
        bs.len() >= 1,
        forall|i: int| 0 <= i < bs.len() ==> #[trigger] bs[i] < 16,
        idx + literal_body(bs).len() <= s.len(),
        forall|i: int| 0 <= i < literal_body(bs).len() ==> s[idx + i] == #[trigger] literal_body(bs)[i],
    ensures
        literal_body(bs).len() == 5 * bs.len(),
        literal_groups(s, idx, acc) == Some((nibbles_value(acc, bs), idx + 5 * bs.len())),
    decreases bs.len(),
{
    reveal_with_fuel(pow2, 5);
    let body = literal_body(bs);
    let head = seq![if bs.len() > 1 {
        '1'
    } else {
        '0'
    }] + bin_digits(bs[0], 4);
    lemma_bin_len(bs[0], 4);
    assert(body == head + literal_body(bs.drop_first()));
    assert(s[idx] == body[0]);
    assert forall|i: int| 0 <= i < 4 implies s[idx + 1 + i] == #[trigger] bin_digits(bs[0], 4)[i] by {
        assert(body[1 + i] == head[1 + i]);
        assert(s[idx + (1 + i)] == body[1 + i]);
    }
    lemma_bin_digits(s, idx + 1, bs[0], 4);
    assert(body[0] == head[0]);
    assert(bits_value(s, idx + 1, idx + 5) == bs[0]);
    assert(is_binary(s, idx + 1, idx + 5));
    if bs.len() > 1 {
        let rest = bs.drop_first();
        assert forall|i: int| 0 <= i < literal_body(rest).len() implies s[(idx + 5) + i]
            == #[trigger] literal_body(rest)[i] by {
            assert(body[5 + i] == literal_body(rest)[i]);
            assert(s[idx + (5 + i)] == body[5 + i]);
        }
        assert forall|i: int| 0 <= i < rest.len() implies #[trigger] rest[i] < 16 by {
            assert(rest[i] == bs[i + 1]);
        }
        lemma_literal_body(s, idx + 5, acc * 16 + bs[0], rest);
        assert(body.len() == 5 + literal_body(rest).len());
        assert(s[idx] == '1');
        assert(literal_groups(s, idx, acc) == literal_groups(s, idx + 5, acc * 16 + bs[0]));
    } else {
        assert(literal_body(bs.drop_first()) =~= seq![]);
        assert(bs.drop_first().len() == 0);
        assert(s[idx] == '0');
        assert(nibbles_value(acc, bs) == nibbles_value(acc * 16 + bs[0], bs.drop_first()));
    }
}

/// A literal packet built from a version below 8 and one or more nibbles
/// whose value fits `u64` decodes, whatever follows it, to that version and
/// value, and ends right after its last group: after 6 + 5 bits per nibble.
pub proof fn lemma_literal_round_trip(v: nat, bs: Seq<nat>, rest: Seq<char>)
    requires
        v < 8,
        bs.len() >= 1,
        forall|i: int| 0 <= i < bs.len() ==> #[trigger] bs[i] < 16,
        nibbles_value(0, bs) <= u64::MAX,
    ensures
        parse_packet(literal_packet(v, bs) + rest, 0) == Some(
            (PacketModel::Literal { version: v, value: nibbles_value(0, bs) }, 6 + 5 * bs.len() as int),
        ),
{
    reveal_with_fuel(pow2, 5);
    let s = literal_packet(v, bs) + rest;
    lemma_bin_len(v, 3);
    lemma_bin_len(4, 3);
    let a = bin_digits(v, 3);
    let b = bin_digits(4, 3);
    let body = literal_body(bs);
    assert forall|i: int| 0 <= i < 3 implies s[0 + i] == #[trigger] bin_digits(v, 3)[i] by {}
    lemma_bin_digits(s, 0, v, 3);
    assert forall|i: int| 0 <= i < 3 implies s[3 + i] == #[trigger] bin_digits(4, 3)[i] by {}
    lemma_bin_digits(s, 3, 4, 3);
    assert forall|i: int| 0 <= i < body.len() implies s[6 + i] == #[trigger] body[i] by {}
    lemma_literal_body(s, 6, 0, bs);
    assert(is_binary(s, 0, 6));
}

} // verus!
