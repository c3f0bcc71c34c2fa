use c32::address::{c32_address, c32_address_decode};
use c32::codec::{c32_decode, c32_encode};
use c32::Error;

fn decode_hex(text: &str) -> Vec<u8> {
    assert!(text.len() % 2 == 0);
    let digits = text.as_bytes();
    let mut bytes = Vec::with_capacity(digits.len() / 2);
    for pair in digits.chunks(2) {
        let high = (pair[0] as char).to_digit(16).unwrap() as u8;
        let low = (pair[1] as char).to_digit(16).unwrap() as u8;
        bytes.push(high * 16 + low);
    }
    bytes
}

#[test]
fn test_addresses() {
    let hex_strs = [
        "a46ff88886c2ef9762d970b4d2c63678835bd39d",
        "0000000000000000000000000000000000000000",
        "0000000000000000000000000000000000000001",
        "1000000000000000000000000000000000000001",
        "1000000000000000000000000000000000000000",
    ];

    let versions = [22, 0, 31, 20, 26, 21];

    let c32_addrs = [
        [
            "SP2J6ZY48GV1EZ5V2V5RB9MP66SW86PYKKNRV9EJ7",
            "SP000000000000000000002Q6VF78",
            "SP00000000000000000005JA84HQ",
            "SP80000000000000000000000000000004R0CMNV",
            "SP800000000000000000000000000000033H8YKK",
        ],
        [
            "S02J6ZY48GV1EZ5V2V5RB9MP66SW86PYKKPVKG2CE",
            "S0000000000000000000002AA028H",
            "S000000000000000000006EKBDDS",
            "S080000000000000000000000000000007R1QC00",
            "S080000000000000000000000000000003ENTGCQ",
        ],
        [
            "SZ2J6ZY48GV1EZ5V2V5RB9MP66SW86PYKKQ9H6DPR",
            "SZ000000000000000000002ZE1VMN",
            "SZ00000000000000000005HZ3DVN",
            "SZ80000000000000000000000000000004XBV6MS",
            "SZ800000000000000000000000000000007VF5G0",
        ],
        [
            "SM2J6ZY48GV1EZ5V2V5RB9MP66SW86PYKKQVX8X0G",
            "SM0000000000000000000062QV6X",
            "SM00000000000000000005VR75B2",
            "SM80000000000000000000000000000004WBEWKC",
            "SM80000000000000000000000000000000JGSYGV",
        ],
        [
            "ST2J6ZY48GV1EZ5V2V5RB9MP66SW86PYKKQYAC0RQ",
            "ST000000000000000000002AMW42H",
            "ST000000000000000000042DB08Y",
            "ST80000000000000000000000000000006BYJ4R4",
            "ST80000000000000000000000000000002YBNPV3",
        ],
        [
            "SN2J6ZY48GV1EZ5V2V5RB9MP66SW86PYKKP6D2ZK9",
            "SN000000000000000000003YDHWKJ",
            "SN00000000000000000005341MC8",
            "SN800000000000000000000000000000066KZWY0",
            "SN800000000000000000000000000000006H75AK",
        ],
    ];

    for i in 0..hex_strs.len() {
        for j in 0..versions.len() {
            let h = hex_strs[i];
            let v = versions[j];
            let b = decode_hex(h);
            let z = c32_address(v, &b).unwrap();

            assert_eq!(z, c32_addrs[j][i]);

            let (decoded_version, decoded_bytes) = c32_address_decode(&z).unwrap();
            assert_eq!(decoded_version, v);
            assert_eq!(decoded_bytes.as_slice(), b.as_slice());
        }
    }
}

#[test]
fn test_simple() {
    let hex_strings = &[
        "a46ff88886c2ef9762d970b4d2c63678835bd39d",
        "",
        "0000000000000000000000000000000000000000",
        "0000000000000000000000000000000000000001",
        "1000000000000000000000000000000000000001",
        "1000000000000000000000000000000000000000",
        "01",
        "22",
        "0001",
        "000001",
        "00000001",
        "10",
        "0100",
        "1000",
        "010000",
        "100000",
        "01000000",
        "10000000",
        "0100000000",
    ];
    let c32_strs = [
        "MHQZH246RBQSERPSE2TD5HHPF21NQMWX",
        "",
        "00000000000000000000",
        "00000000000000000001",
        "20000000000000000000000000000001",
        "20000000000000000000000000000000",
        "1",
        "12",
        "01",
        "001",
        "0001",
        "G",
        "80",
        "400",
        "2000",
        "10000",
        "G0000",
        "800000",
        "4000000",
    ];

    let results: Vec<_> = hex_strings
        .iter()
        .zip(c32_strs.iter())
        .map(|(hex_str, expected)| {
            let bytes = decode_hex(hex_str);
            let c32_encoded = c32_encode(&bytes);
            let decoded_bytes = c32_decode(&c32_encoded).unwrap();
            let result = (bytes, c32_encoded, decoded_bytes, expected);
            println!("{:?}", result);
            result
        })
        .collect();
    for (bytes, c32_encoded, decoded_bytes, expected_c32) in results.iter() {
        assert_eq!(bytes, decoded_bytes);
        assert_eq!(c32_encoded, *expected_c32);
    }
}

#[test]
fn test_normalize() {
    let addrs = [
        "S02J6ZY48GV1EZ5V2V5RB9MP66SW86PYKKPVKG2CE",
        "SO2J6ZY48GV1EZ5V2V5RB9MP66SW86PYKKPVKG2CE",
        "S02J6ZY48GVLEZ5V2V5RB9MP66SW86PYKKPVKG2CE",
        "SO2J6ZY48GVLEZ5V2V5RB9MP66SW86PYKKPVKG2CE",
        "s02j6zy48gv1ez5v2v5rb9mp66sw86pykkpvkg2ce",
        "sO2j6zy48gv1ez5v2v5rb9mp66sw86pykkpvkg2ce",
        "s02j6zy48gvlez5v2v5rb9mp66sw86pykkpvkg2ce",
        "sO2j6zy48gvlez5v2v5rb9mp66sw86pykkpvkg2ce",
    ];

    let expected_bytes = decode_hex("a46ff88886c2ef9762d970b4d2c63678835bd39d");
    let expected_version = 0;

    for addr in addrs.iter() {
        let (decoded_version, decoded_bytes) = c32_address_decode(addr).unwrap();
        assert_eq!(decoded_version, expected_version);
        assert_eq!(decoded_bytes, expected_bytes);
    }
}

#[test]
fn test_ascii_only() {
    match c32_address_decode("S\u{1D7D8}2J6ZY48GV1EZ5V2V5RB9MP66SW86PYKKPVKG2CE") {
        Err(Error::NonAsciiInput) => {}
        _ => {
            assert!(false);
        }
    }
}
