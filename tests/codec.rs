use weird::{fnv_hash, Alphabet, ByteSource, Error, Kind, Weird};

const SAMPLE: [u64; 16] = [
    0,
    1,
    2,
    31,
    32,
    33,
    1023,
    1024,
    5111,
    65535,
    1 << 32,
    (1 << 59) + 7,
    (1 << 60) - 1,
    1 << 60,
    (1 << 63) + 12345,
    u64::MAX,
];

fn plain(salt: &str) -> Weird<String> {
    Weird::new(salt.to_string(), Alphabet::canonical()).unwrap()
}

fn kind_of(r: Result<u64, Error>) -> Kind {
    r.unwrap_err().kind()
}

#[test]
fn round_trip_over_salts_and_alphabets() {
    let salts = ["Hello, world!", "Salt goes here", "x", "In the beginning"];
    for salt in salts {
        let shuffled = Weird::from_salt(salt.to_string()).unwrap();
        let custom = Weird::new(
            salt.to_string(),
            Alphabet::new("4836Q1XBVM59THGRS7Y2ADW0NFZJKPEC").unwrap(),
        )
        .unwrap();
        let canonical = plain(salt);
        for v in SAMPLE {
            assert_eq!(shuffled.decode(&shuffled.encode(v)), Ok(v));
            assert_eq!(custom.decode(&custom.encode(v)), Ok(v));
            assert_eq!(canonical.decode(&canonical.encode(v)), Ok(v));
        }
    }
}

#[test]
fn round_trip_lower_case() {
    let w = Weird::from_salt("Hello, world!".to_string()).unwrap();
    for v in SAMPLE {
        assert_eq!(w.decode(&w.encode(v).to_lowercase()), Ok(v));
    }
}

#[test]
fn encoded_length_is_minimal() {
    let w = Weird::from_salt("Hello, world!".to_string()).unwrap();
    assert_eq!(w.encode(0).len(), 1);
    assert_eq!(w.encode(1).len(), 1);
    assert_eq!(w.encode(31).len(), 1);
    assert_eq!(w.encode(32).len(), 2);
    assert_eq!(w.encode(1023).len(), 2);
    assert_eq!(w.encode(1024).len(), 3);
    assert_eq!(w.encode((1 << 60) - 1).len(), 12);
    assert_eq!(w.encode(1 << 60).len(), 13);
    assert_eq!(w.encode(u64::MAX).len(), 13);
}

#[test]
fn neutral_baseline_matches_plain_base32() {
    // a space is 32, so its mask is zero
    let w = plain(" ");
    assert_eq!(w.encode(5111), "4ZQ");
    assert_eq!(w.encode(18446744073709551615), "FZZZZZZZZZZZZ");
    assert_eq!(w.encode(65535), "1ZZZ");
    assert_eq!(w.encode(0), "0");
    assert_eq!(w.encode(32), "10");
    assert_eq!(w.decode("4ZQ"), Ok(5111));
    assert_eq!(w.decode("FZZZZZZZZZZZZ"), Ok(u64::MAX));
}

#[test]
fn keystream_masks_each_digit_cyclically() {
    let one = plain("\u{1}");
    assert_eq!(one.encode(5111), "5YP");
    let two = plain("\u{1}\u{2}");
    assert_eq!(two.encode(5111), "5XP");
    assert_eq!(two.decode("5XP"), Ok(5111));
    assert_eq!(one.encode(0), "1");
}

#[test]
fn case_and_ambiguity_folding() {
    let w = plain(" ");
    assert_eq!(w.decode("o"), Ok(0));
    assert_eq!(w.decode("O"), Ok(0));
    assert_eq!(w.decode("0"), Ok(0));
    for s in ["i", "I", "l", "L", "1"] {
        assert_eq!(w.decode(s), Ok(1));
    }
    assert_eq!(w.decode("4zq"), Ok(5111));
    assert_eq!(w.decode("fzzzzzzzzzzzz"), Ok(u64::MAX));
}

#[test]
fn decode_errors() {
    let w = plain(" ");
    assert_eq!(kind_of(w.decode("")), Kind::EmptyString);
    assert_eq!(kind_of(w.decode("11111111111111")), Kind::OutOfRange);
    assert_eq!(kind_of(w.decode("12#4")), Kind::InvalidDigit(2, b'#'));
    assert_eq!(kind_of(w.decode("#")), Kind::InvalidDigit(0, b'#'));
    assert_eq!(kind_of(w.decode("1U")), Kind::CheckDigitUnsupported(1, b'U'));
    assert_eq!(kind_of(w.decode("*1#")), Kind::CheckDigitUnsupported(0, b'*'));
    let salted = Weird::from_salt("Hello, world!".to_string()).unwrap();
    assert_eq!(kind_of(salted.decode("Hello, world!")), Kind::InvalidDigit(5, b','));
}

#[test]
fn decode_wraps_thirteen_digit_overflow() {
    let w = plain(" ");
    // 13 digits whose top digit is over four bits wrap modulo 2^64
    assert_eq!(w.decode("G000000000000"), Ok(0));
    assert_eq!(w.decode("G000000000001"), Ok(1));
}

#[test]
fn empty_salt_is_rejected() {
    let r = Weird::from_salt(String::new());
    assert_eq!(r.err().map(|e| e.kind()), Some(Kind::EmptySalt));
    let r = Weird::new(String::new(), Alphabet::canonical());
    assert_eq!(r.err().map(|e| e.kind()), Some(Kind::EmptySalt));
}

#[test]
fn custom_alphabet_validation() {
    let a = Alphabet::new("4836Q1XBVM59THGRS7Y2ADW0NFZJKPEC").unwrap();
    assert_eq!(&a.symbols(), b"4836Q1XBVM59THGRS7Y2ADW0NFZJKPEC");
    let lower = Alphabet::new("4836q1xbvm59thgrs7y2adw0nfzjkpec").unwrap();
    assert_eq!(&lower.symbols(), b"4836Q1XBVM59THGRS7Y2ADW0NFZJKPEC");
    let bad = [
        "4836Q1XBVM59THGRS7Y2ADW0NFZJKPE",
        "4836Q1XBVM59THGRS7Y2ADW0NFZJKPECC",
        "4836Q1XBVM59THGRS7Y2ADW0NFZJKPE4",
        "4836Q1XBVM59THGRS7Y2ADW0NFZJKPEI",
        "4836Q1XBVM59THGRS7Y2ADWONFZJKPEC",
        "4836Q1XBVM59THGRS7Y2ADW0NFZJKPEU",
        "4836q1XBVM59THGRS7Y2ADW0NFZJKPE4",
    ];
    for s in bad {
        assert_eq!(Alphabet::new(s).err().map(|e| e.kind()), Some(Kind::InvalidAlphabet));
    }
}

#[test]
fn custom_alphabet_encodes_through_its_symbols() {
    let w = Weird::new(
        " ".to_string(),
        Alphabet::new("4836Q1XBVM59THGRS7Y2ADW0NFZJKPEC").unwrap(),
    )
    .unwrap();
    // digits 4, 31, 23 of 5111
    assert_eq!(w.encode(5111), "QC0");
    assert_eq!(w.decode("qco"), Ok(5111));
    // the symbol standing for digit 5 is 1, so I and L read as 5
    assert_eq!(w.decode("i"), Ok(5));
    assert_eq!(w.decode("L"), Ok(5));
    // the symbol standing for digit 23 is 0, so O reads as 23
    assert_eq!(w.decode("o"), Ok(23));
}

#[test]
fn salts_change_the_encoding() {
    let a = Weird::from_salt("Hello, world!".to_string()).unwrap();
    let b = Weird::from_salt("Salt goes here".to_string()).unwrap();
    assert_ne!(a.alphabet().symbols(), b.alphabet().symbols());
    let differing = (1..100u64).filter(|&v| a.encode(v) != b.encode(v)).count();
    assert!(differing > 90);
    for v in 1..100u64 {
        assert_eq!(a.decode(&a.encode(v)), Ok(v));
        assert_eq!(b.decode(&b.encode(v)), Ok(v));
    }
}

#[test]
fn same_salt_gives_same_codec() {
    let a = Weird::from_salt("Hello, world!".to_string()).unwrap();
    let b = Weird::from_salt("Hello, world!".to_string()).unwrap();
    assert_eq!(a.alphabet().symbols(), b.alphabet().symbols());
    for v in SAMPLE {
        assert_eq!(a.encode(v), b.encode(v));
    }
    assert_eq!(Alphabet::from_seed(42).symbols(), Alphabet::from_seed(42).symbols());
    assert_eq!(
        Alphabet::from_salt(b"Hello, world!").symbols(),
        Alphabet::from_seed(fnv_hash(b"Hello, world!")).symbols()
    );
}

#[test]
fn shuffled_alphabet_is_a_permutation() {
    let canonical = Alphabet::canonical().symbols();
    for seed in [0u32, 1, 42, 0xdead_beef] {
        let shuffled = Alphabet::from_seed(seed).symbols();
        assert_ne!(shuffled, canonical);
        let mut sorted = shuffled;
        sorted.sort();
        assert_eq!(&sorted, b"0123456789ABCDEFGHJKMNPQRSTVWXYZ");
    }
}

#[test]
fn canonical_alphabet_order() {
    assert_eq!(&Alphabet::canonical().symbols(), b"0123456789ABCDEFGHJKMNPQRSTVWXYZ");
}

#[test]
fn salt_hash_values() {
    assert_eq!(fnv_hash(b""), 1493338014);
    assert_eq!(fnv_hash(b"a"), 3645546703);
    assert_eq!(fnv_hash(b"Hello, world!"), 2484188567);
}

#[test]
fn byte_source_cycles() {
    let data = [7u8, 40, 99];
    let mut s = ByteSource::new(&data);
    let drawn: Vec<u8> = (0..7).map(|_| s.next()).collect();
    assert_eq!(drawn, vec![7, 40, 99, 7, 40, 99, 7]);
    let single = [5u8];
    let mut one = ByteSource::new(&single);
    assert_eq!(one.next(), 5);
    assert_eq!(one.next(), 5);
}

#[test]
fn byte_source_apply_masks() {
    let data = [33u8, 64, 31];
    let mut s = ByteSource::new(&data);
    assert_eq!(s.apply(0), 1);
    assert_eq!(s.apply(5), 5);
    assert_eq!(s.apply(31), 0);
    assert_eq!(s.apply(1), 0);
}

#[test]
fn encode_into_appends() {
    let w = plain(" ");
    let mut buf = String::from("id-");
    w.encode_into(5111, &mut buf);
    assert_eq!(buf, "id-4ZQ");
}

#[test]
fn error_messages() {
    assert_eq!(Error::new(Kind::EmptyString).message(), "Encoded input string is empty.");
    assert_eq!(Error::new(Kind::OutOfRange).kind(), Kind::OutOfRange);
}

#[test]
fn canonical_digit_table() {
    assert_eq!(weird::canonical_digit(b'0'), 0);
    assert_eq!(weird::canonical_digit(b'z'), 31);
    assert_eq!(weird::canonical_digit(b'O'), 0);
    assert_eq!(weird::canonical_digit(b'l'), 1);
    assert_eq!(weird::canonical_digit(b'u'), -2);
    assert_eq!(weird::canonical_digit(b'~'), -2);
    assert_eq!(weird::canonical_digit(b'!'), -1);
    assert_eq!(weird::canonical_digit(200), -1);
    for d in 0..32u8 {
        assert_eq!(weird::canonical_digit(weird::canonical_symbol(d)), d as i8);
    }
}

#[test]
fn str_and_bytes_salts() {
    let a = Weird::from_salt("Hello, world!").unwrap();
    let b = Weird::from_salt(b"Hello, world!".to_vec()).unwrap();
    for v in SAMPLE {
        assert_eq!(a.encode(v), b.encode(v));
    }
}
