use c32::address::{c32_address, c32_address_decode};
use c32::envelope::{
    c32_check_decode, c32_check_encode_prefixed, c32_check_encode_with_sum, c32_check_split,
    c32_check_verify,
};
use c32::Error;

const PAYLOAD: [u8; 20] = [
    0xa4, 0x6f, 0xf8, 0x88, 0x86, 0xc2, 0xef, 0x97, 0x62, 0xd9, 0x70, 0xb4, 0xd2, 0xc6, 0x36, 0x78,
    0x83, 0x5b, 0xd3, 0x9d,
];

#[test]
fn address_vectors() {
    assert_eq!(
        c32_address(22, &PAYLOAD).unwrap(),
        "SP2J6ZY48GV1EZ5V2V5RB9MP66SW86PYKKNRV9EJ7"
    );
    assert_eq!(c32_address(0, &[0u8; 20]).unwrap(), "S0000000000000000000002AA028H");
    let mut one = [0u8; 20];
    one[19] = 1;
    assert_eq!(c32_address(0, &one).unwrap(), "S000000000000000000006EKBDDS");
    assert_eq!(c32_address(0, &[]).unwrap(), "S0A0DR2R");
    assert_eq!(c32_address(31, &[]).unwrap(), "SZ44N8Q4");
    assert_eq!(c32_address(5, &[0]).unwrap(), "S503Q047JE");
    assert_eq!(c32_address(5, &[0xff; 3]).unwrap(), "S51ZZZZZN9CZDC");
}

#[test]
fn leading_zero_symbols_are_counted_exactly() {
    let address = c32_address(0, &[0u8; 20]).unwrap();
    // the letter, the version, then twenty zero symbols for twenty zero bytes
    assert_eq!(&address[..2], "S0");
    assert_eq!(&address[2..22], "00000000000000000000");
    assert_ne!(address.as_bytes()[22], b'0');
    assert_eq!(address.len(), 29);
}

#[test]
fn address_round_trip_for_every_version() {
    let expected = [
        "S000ZZ3D3E1B", "S180ZYBY4H6J", "S2G0ZXY0WY21", "S3R0ZYDJRB88", "S4100ZX97SGE6",
        "S5180ZYJNBB98", "S61G0ZZH3S637", "S71R0ZXBDE3ZZ", "S8200ZXEB31SC", "S9280ZYF0AH3A",
        "SA2G0ZXC70H77", "SB2R0ZYC8TEZK", "SC300ZWQFNCCK", "SD380ZYVJ091R", "SE3G0ZWYX62J7",
        "SF3R0ZYPACXD0", "SG400ZZQN3WWR", "SH480ZXVKQVX3", "SJ4G0ZX9AMDFE", "SK4R0ZWB90ZMP",
        "SM500ZYE9ZGMH", "SN580ZWECXTDF", "SP5G0ZX05PFVX", "SQ5R0ZYKV9PA4", "SR600ZXF5N54R",
        "SS680ZZ0YWYX3", "ST6G0ZZ8W46DW", "SV6R0ZXHTFCVV", "SW700ZYDVZSV7", "SX780ZZYETPTW",
        "SY7G0ZX9R85S1", "SZ7R0ZW9ZZZK3",
    ];
    for version in 0..32u8 {
        let payload = [version, 0, 255];
        let address = c32_address(version, &payload).unwrap();
        assert_eq!(address, expected[version as usize]);
        assert_eq!(c32_address_decode(&address), Ok((version, payload.to_vec())));
    }
}

#[test]
fn address_round_trip_for_many_payloads() {
    for len in 0..48usize {
        let mut payload = Vec::new();
        for index in 0..len {
            payload.push((index * 37 + len * 11) as u8);
        }
        for version in [0u8, 1, 20, 21, 22, 26, 31] {
            let address = c32_address(version, &payload).unwrap();
            assert_eq!(c32_address_decode(&address), Ok((version, payload.clone())));
        }
        // zero bytes in front of the payload are kept
        let mut padded = vec![0u8; 3];
        padded.extend_from_slice(&payload);
        let address = c32_address(9, &padded).unwrap();
        assert_eq!(c32_address_decode(&address), Ok((9, padded)));
    }
}

#[test]
fn long_payload_round_trip() {
    let payload: Vec<u8> = (0..40u8).collect();
    let address = c32_address(31, &payload).unwrap();
    assert_eq!(
        address,
        "SZ020G30G2GC1R81450P30D1R7H048J2CA1A5GQ30CHM6RW3MF1Y81148HJ89964ZHNCFPJ"
    );
    assert_eq!(c32_address_decode(&address), Ok((31, payload)));
}

#[test]
fn version_of_more_than_five_bits_is_refused() {
    assert_eq!(c32_address(32, &PAYLOAD), Err(Error::InvalidVersion(32)));
    assert_eq!(c32_address(255, &PAYLOAD), Err(Error::InvalidVersion(255)));
    assert_eq!(c32_address(32, &[]), Err(Error::InvalidVersion(32)));
    assert_eq!(c32_address(100, &[0; 3]), Err(Error::InvalidVersion(100)));
    assert_eq!(c32_check_encode_prefixed(33, &PAYLOAD, b'S'), Err(Error::InvalidVersion(33)));
    assert_eq!(
        c32_check_encode_with_sum(32, &PAYLOAD, &[0; 4], b'S'),
        Err(Error::InvalidVersion(32))
    );
    assert!(c32_address(31, &PAYLOAD).is_ok());
}

#[test]
fn address_that_is_not_ascii_is_refused() {
    assert_eq!(
        c32_address_decode("S\u{1D7D8}2J6ZY48GV1EZ5V2V5RB9MP66SW86PYKKPVKG2CE"),
        Err(Error::NonAsciiInput)
    );
    assert_eq!(
        c32_address_decode("SP2J6ZY48GV1EZ5V2V5RB9MP66SW86PYKKNRV9EJ\u{e9}"),
        Err(Error::NonAsciiInput)
    );
}

#[test]
fn changed_checksum_symbol_is_noticed() {
    // the last symbol 7 became 8: the payload is the same, the checksum found differs
    assert_eq!(
        c32_address_decode("SP2J6ZY48GV1EZ5V2V5RB9MP66SW86PYKKNRV9EJ8"),
        Err(Error::BadChecksum(1203418225, 1220195441))
    );
}

#[test]
fn changed_payload_symbol_is_noticed() {
    // the first payload symbol 2 became 3: the checksum found is that of the old payload
    assert_eq!(
        c32_address_decode("SP3J6ZY48GV1EZ5V2V5RB9MP66SW86PYKKNRV9EJ7"),
        Err(Error::BadChecksum(3441676119, 1203418225))
    );
}

#[test]
fn changed_version_symbol_is_noticed() {
    // version P became N: the checksum found is that of the payload under P
    assert_eq!(
        c32_address_decode("SN2J6ZY48GV1EZ5V2V5RB9MP66SW86PYKKNRV9EJ7"),
        Err(Error::BadChecksum(1769918860, 1203418225))
    );
}

#[test]
fn every_single_changed_symbol_is_noticed() {
    let address = "SP2J6ZY48GV1EZ5V2V5RB9MP66SW86PYKKNRV9EJ7";
    let alphabet = "0123456789ABCDEFGHJKMNPQRSTVWXYZ";
    for position in 1..address.len() {
        for symbol in alphabet.chars() {
            let mut changed: Vec<char> = address.chars().collect();
            if changed[position] == symbol {
                continue;
            }
            changed[position] = symbol;
            let changed: String = changed.into_iter().collect();
            assert!(matches!(c32_address_decode(&changed), Err(Error::BadChecksum(_, _))));
        }
    }
}

#[test]
fn every_single_flipped_bit_is_noticed() {
    let address = "SP2J6ZY48GV1EZ5V2V5RB9MP66SW86PYKKNRV9EJ7";
    let plain = c32_address_decode(address).unwrap();
    for position in 2..address.len() {
        for bit in 0..7 {
            let mut bytes = address.as_bytes().to_vec();
            bytes[position] ^= 1 << bit;
            let changed = String::from_utf8(bytes).unwrap();
            match c32_address_decode(&changed) {
                // another spelling of the same symbol
                Ok(decoded) => {
                    assert_eq!(decoded, plain);
                    assert!(changed.eq_ignore_ascii_case(address));
                }
                Err(Error::BadChecksum(_, _)) => {}
                Err(Error::InvalidAlphabetSymbol) => {}
                Err(other) => panic!("{:?}", other),
            }
        }
    }
}

#[test]
fn too_short_address_is_refused() {
    assert_eq!(c32_address_decode(""), Err(Error::InvalidFormat));
    assert_eq!(c32_address_decode("S"), Err(Error::InvalidFormat));
    assert_eq!(c32_address_decode("SP000"), Err(Error::InvalidFormat));
    // five bytes or fewer, whatever they hold
    assert_eq!(c32_address_decode("UUUUU"), Err(Error::InvalidFormat));
    assert_eq!(c32_address_decode("S\u{1D7D8}"), Err(Error::InvalidFormat));
    // long enough, but fewer than four bytes behind the version
    assert_eq!(c32_address_decode("S0ZZZZ"), Err(Error::InvalidFormat));
    assert_eq!(c32_address_decode("SZZZ00"), Err(Error::InvalidFormat));
}

#[test]
fn shortest_addresses_reach_the_checksum() {
    // six characters, four bytes behind the version: the checksum decides
    assert_eq!(c32_address_decode("S00000"), Err(Error::BadChecksum(1491076628, 0)));
    assert_eq!(c32_address_decode("S0A0DR2R"), Ok((0, vec![])));
}

#[test]
fn wrong_character_in_address_is_refused() {
    assert_eq!(
        c32_address_decode("SP2J6ZY48GV1EZ5V2V5RB9MP66SW86PYKKNRV9EJU"),
        Err(Error::InvalidAlphabetSymbol)
    );
    assert_eq!(
        c32_address_decode("SP2J6ZY48GV1EZ5V2V5RB9MP66-W86PYKKNRV9EJ7"),
        Err(Error::InvalidAlphabetSymbol)
    );
    // the version is a symbol like the others
    assert_eq!(
        c32_address_decode("SU2J6ZY48GV1EZ5V2V5RB9MP66SW86PYKKNRV9EJ7"),
        Err(Error::InvalidAlphabetSymbol)
    );
    assert_eq!(c32_address_decode("S*0000"), Err(Error::InvalidAlphabetSymbol));
}

#[test]
fn first_character_is_not_looked_at() {
    let expected = Ok((22, PAYLOAD.to_vec()));
    assert_eq!(c32_address_decode("SP2J6ZY48GV1EZ5V2V5RB9MP66SW86PYKKNRV9EJ7"), expected);
    assert_eq!(c32_address_decode("XP2J6ZY48GV1EZ5V2V5RB9MP66SW86PYKKNRV9EJ7"), expected);
    assert_eq!(c32_address_decode("UP2J6ZY48GV1EZ5V2V5RB9MP66SW86PYKKNRV9EJ7"), expected);
    assert_eq!(c32_address_decode("-P2J6ZY48GV1EZ5V2V5RB9MP66SW86PYKKNRV9EJ7"), expected);
    assert_eq!(c32_address_decode("\u{e9}P2J6ZY48GV1EZ5V2V5RB9MP66SW86PYKKNRV9EJ7"), expected);
    assert_eq!(
        c32_address_decode("\u{1D7D8}P2J6ZY48GV1EZ5V2V5RB9MP66SW86PYKKNRV9EJ7"),
        expected
    );
}

#[test]
fn spelling_of_an_address_is_immaterial() {
    let expected = Ok((22, PAYLOAD.to_vec()));
    for address in [
        "SP2J6ZY48GV1EZ5V2V5RB9MP66SW86PYKKNRV9EJ7",
        "sp2j6zy48gv1ez5v2v5rb9mp66sw86pykknrv9ej7",
        "Sp2J6Zy48Gv1eZ5V2v5rB9Mp66sW86PyKkNrV9Ej7",
        "SP2J6ZY48GVLEZ5V2V5RB9MP66SW86PYKKNRV9EJ7",
        "SP2J6ZY48GVlEZ5V2V5RB9MP66SW86PYKKNRV9EJ7",
        "SP2J6ZY48GVIEZ5V2V5RB9MP66SW86PYKKNRV9EJ7",
        "SP2J6ZY48GViEZ5V2V5RB9MP66SW86PYKKNRV9EJ7",
    ] {
        assert_eq!(c32_address_decode(address), expected);
    }
    let zeros = Ok((0, vec![0u8; 20]));
    assert_eq!(c32_address_decode("S0000000000000000000002AA028H"), zeros);
    assert_eq!(c32_address_decode("SOOOOOOOOOOOOOOOOOOOOO2AAO28H"), zeros);
    assert_eq!(c32_address_decode("sooooooooooooooooooooo2aao28h"), zeros);
    // one zero symbol more is one zero byte more: another payload
    assert_eq!(
        c32_address_decode("S00000000000000000000002AA028H"),
        Err(Error::BadChecksum(4270051295, 285843604))
    );
}

#[test]
fn envelope_with_another_prefix() {
    assert_eq!(
        c32_check_encode_prefixed(22, &PAYLOAD, b'X').unwrap(),
        "XP2J6ZY48GV1EZ5V2V5RB9MP66SW86PYKKNRV9EJ7"
    );
    assert_eq!(c32_check_encode_prefixed(0, &[], b'-').unwrap(), "-0A0DR2R");
}

#[test]
fn envelope_with_a_given_checksum() {
    assert_eq!(
        c32_check_encode_with_sum(5, &[1, 2, 3], &[9, 8, 7, 6], b'X').unwrap(),
        "X5820C4GG1R6"
    );
    assert_eq!(c32_check_encode_with_sum(0, &[], &[0, 0, 0, 1], b'S').unwrap(), "S00001");
    assert_eq!(
        c32_check_encode_with_sum(22, &PAYLOAD, &[0x71, 0xb4, 0xba, 0x47], b'S').unwrap(),
        "SP2J6ZY48GV1EZ5V2V5RB9MP66SW86PYKKNRV9EJ7"
    );
}

#[test]
fn envelope_decodes_without_the_prefix() {
    assert_eq!(
        c32_check_decode("P2J6ZY48GV1EZ5V2V5RB9MP66SW86PYKKNRV9EJ7"),
        Ok((22, PAYLOAD.to_vec()))
    );
    assert_eq!(c32_check_decode("0A0DR2R"), Ok((0, vec![])));
}

#[test]
fn too_short_envelope_is_refused() {
    assert_eq!(c32_check_decode(""), Err(Error::InvalidFormat));
    assert_eq!(c32_check_decode("0"), Err(Error::InvalidFormat));
    assert_eq!(c32_check_decode("U"), Err(Error::InvalidFormat));
    assert_eq!(c32_check_decode("00"), Err(Error::InvalidFormat));
    assert_eq!(c32_check_decode("0000"), Err(Error::InvalidFormat));
    assert_eq!(c32_check_decode("PZZZZ"), Err(Error::InvalidFormat));
}

#[test]
fn envelope_errors_come_in_order() {
    // not ASCII, before anything else
    assert_eq!(c32_check_decode("\u{e9}"), Err(Error::NonAsciiInput));
    assert_eq!(c32_check_decode("U\u{e9}"), Err(Error::NonAsciiInput));
    // the version, before what follows it
    assert_eq!(c32_check_decode("U0"), Err(Error::InvalidAlphabetSymbol));
    assert_eq!(c32_check_decode("U-"), Err(Error::InvalidAlphabetSymbol));
    // a wrong character, before the length of what was decoded
    assert_eq!(c32_check_decode("0-"), Err(Error::InvalidAlphabetSymbol));
}

#[test]
fn envelope_split_in_its_parts() {
    assert_eq!(
        c32_check_split("P2J6ZY48GV1EZ5V2V5RB9MP66SW86PYKKNRV9EJ7"),
        Ok((22, PAYLOAD.to_vec(), [0x71, 0xb4, 0xba, 0x47]))
    );
    // the checksum is handed out untested
    assert_eq!(c32_check_split("5820C4GG1R6"), Ok((5, vec![1, 2, 3], [9, 8, 7, 6])));
    assert_eq!(c32_check_split("00000"), Ok((0, vec![], [0, 0, 0, 0])));
    assert_eq!(c32_check_split("z00001"), Ok((31, vec![0], [0, 0, 0, 1])));
    assert_eq!(c32_check_split("0000"), Err(Error::InvalidFormat));
    assert_eq!(c32_check_split("u0000"), Err(Error::InvalidAlphabetSymbol));
    assert_eq!(c32_check_split("0000\u{e9}"), Err(Error::NonAsciiInput));
}

#[test]
fn checksums_are_compared_byte_by_byte() {
    assert_eq!(
        c32_check_verify(7, vec![1, 2], &[1, 2, 3, 4], &[1, 2, 3, 4]),
        Ok((7, vec![1, 2]))
    );
    // first the checksum computed, then the one found
    assert_eq!(
        c32_check_verify(7, vec![1, 2], &[1, 2, 3, 4], &[1, 2, 3, 5]),
        Err(Error::BadChecksum(0x05030201, 0x04030201))
    );
    assert_eq!(
        c32_check_verify(7, vec![], &[0, 0, 0, 0], &[1, 0, 0, 0]),
        Err(Error::BadChecksum(1, 0))
    );
    assert_eq!(
        c32_check_verify(0, vec![], &[0xff, 0, 0, 0], &[0, 0, 0, 0xff]),
        Err(Error::BadChecksum(0xff00_0000, 0xff))
    );
}
