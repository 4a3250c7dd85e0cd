use advent_of_rust_2021::packets::{
    calculate_packets, hex_to_binary, part1, part2, read_packets, sum_versions, Packet,
};

fn bits(s: &str) -> Vec<char> {
    s.chars().collect()
}

#[test]
fn literal_2021_round_trip() {
    let stream = bits("110100101111111000101000");
    let (packet, end) = read_packets(&stream, 0).unwrap();
    assert_eq!(end, 21);
    match &packet {
        Packet::LiteralValue(v) => {
            assert_eq!(v.version, 6);
            assert_eq!(v.value, 2021);
        }
        Packet::Operator(_) => panic!("expected a literal"),
    }
    assert_eq!(calculate_packets(&packet), Some(2021));
}

#[test]
fn hex_of_literal_2021() {
    assert_eq!(hex_to_binary("D2FE28").unwrap(), bits("110100101111111000101000"));
    assert_eq!(hex_to_binary("d2fe28").unwrap(), bits("110100101111111000101000"));
    assert_eq!(hex_to_binary("D2FG28"), None);
    assert_eq!(hex_to_binary("").unwrap(), Vec::<char>::new());
}

#[test]
fn operator_by_length() {
    let stream = hex_to_binary("38006F45291200").unwrap();
    let (packet, _) = read_packets(&stream, 0).unwrap();
    match &packet {
        Packet::Operator(o) => {
            assert_eq!(o.version, 1);
            assert_eq!(o.type_id, 6);
            assert_eq!(o.packets.len(), 2);
        }
        Packet::LiteralValue(_) => panic!("expected an operator"),
    }
    assert_eq!(calculate_packets(&packet), Some(1));
}

#[test]
fn operator_by_count() {
    let stream = hex_to_binary("EE00D40C823060").unwrap();
    let (packet, _) = read_packets(&stream, 0).unwrap();
    match &packet {
        Packet::Operator(o) => {
            assert_eq!(o.version, 7);
            assert_eq!(o.type_id, 3);
            assert_eq!(o.packets.len(), 3);
        }
        Packet::LiteralValue(_) => panic!("expected an operator"),
    }
    assert_eq!(calculate_packets(&packet), Some(3));
}

#[test]
fn version_sum_nested_operators() {
    // versions 4, 1, 5 and 6
    assert_eq!(part1("8A004A801A8002F478"), Some(16));
    assert_eq!(part1("620080001611562C8802118E34"), Some(12));
    assert_eq!(part1("C0015000016115A2E0802F182340"), Some(23));
    assert_eq!(part1("A0016C880162017C3686B18A3D4780"), Some(31));
}

#[test]
fn evaluation_examples() {
    assert_eq!(part2("C200B40A82"), Some(3));
    assert_eq!(part2("04005AC33890"), Some(54));
    assert_eq!(part2("880086C3E88112"), Some(7));
    assert_eq!(part2("CE00C43D881120"), Some(9));
    assert_eq!(part2("D8005AC2A8F0"), Some(1));
    assert_eq!(part2("F600BC2D8F"), Some(0));
    assert_eq!(part2("9C005AC2F8F0"), Some(0));
    assert_eq!(part2("9C0141080250320F1802104A08"), Some(1));
}

#[test]
fn reparsing_gives_the_same_tree() {
    let stream = hex_to_binary("9C0141080250320F1802104A08").unwrap();
    let (a, ea) = read_packets(&stream, 0).unwrap();
    let (b, eb) = read_packets(&stream, 0).unwrap();
    assert_eq!(ea, eb);
    assert_eq!(calculate_packets(&a), calculate_packets(&b));
    assert_eq!(sum_versions(&a), sum_versions(&b));
}

#[test]
fn truncated_input_is_rejected() {
    assert!(read_packets(&bits("11010010111111100010"), 0).is_none());
    assert!(read_packets(&bits("110"), 0).is_none());
    assert!(read_packets(&bits("110100101"), 5).is_none());
    assert_eq!(part1("Z"), None);
}

#[test]
fn comparison_needs_two_operands() {
    // a greater-than packet (type 5) by count holding a single literal 1
    let text = ["000", "101", "1", "00000000001", "000", "100", "00001"].concat();
    let stream = bits(&text);
    let (packet, _) = read_packets(&stream, 0).unwrap();
    assert_eq!(calculate_packets(&packet), None);
}

#[test]
fn sum_overflow_is_reported() {
    // a sum packet (type 0) by count of two literals each u64::MAX
    let mut s = String::from("000000");
    s.push('1');
    s.push_str("00000000010");
    for _ in 0..2 {
        s.push_str("000100");
        for g in 0..16 {
            s.push(if g < 15 { '1' } else { '0' });
            s.push_str("1111");
        }
    }
    let stream = bits(&s);
    let (packet, _) = read_packets(&stream, 0).unwrap();
    assert_eq!(calculate_packets(&packet), None);
}

#[test]
fn short_literal_stops_at_its_first_final_group() {
    // version 6, literal; its first group already has a leading 0
    let stream = bits("110100010101001000100100");
    let (packet, end) = read_packets(&stream, 0).unwrap();
    assert_eq!(end, 11);
    assert_eq!(calculate_packets(&packet), Some(10));
}

#[test]
fn fields_must_be_binary() {
    assert!(read_packets(&bits("1101001011111110001x1000"), 0).is_none());
    assert!(read_packets(&bits("11x100101111111000101000"), 0).is_none());
    assert!(read_packets(&bits("00111000000000000x011011"), 0).is_none());
}
