use hashassin::chain::{create_chain, crack_chain, walk_links};
use hashassin::client::cache_size_within_i32;
use hashassin::crack::{crack_passwords, load_hashes, load_rainbow_table};
use hashassin::dump_hashes::{dump_hashes, get_hash_size};
use hashassin::dump_rainbow_table::dump_rainbow_table;
use hashassin::error::HashassinError;
use hashassin::format::{
    algorithm_from_name, chain_record, hash_file_header, parse_hash_file, parse_rainbow_table,
    rainbow_table_header, split_digests,
};
use hashassin::generate_hashes::{check_hash_job, hash_file_contents};
use hashassin::generate_passwords::{generate_random_string, plan_password_workers};
use hashassin::generate_rainbow_table::{rainbow_table_contents, table_algorithm, validate_inputs};
use hashassin::hash::{HashAlgorithm, hash_bytes, hash_with_algorithm};
use hashassin::radix_type::Radix;
use hashassin::reduction::{reduce, reduction_function};

fn unhex(s: &str) -> Vec<u8> {
    (0..s.len() / 2).map(|i| u8::from_str_radix(&s[2 * i..2 * i + 2], 16).unwrap()).collect()
}

fn pws(list: &[&str]) -> Vec<Vec<u8>> {
    list.iter().map(|p| p.as_bytes().to_vec()).collect()
}

#[test]
fn md5_of_pass_and_abcd() {
    assert_eq!(hash_with_algorithm("pass", &HashAlgorithm::Md5), unhex("1a1dc91c907325c69271ddf0c944bc72"));
    assert_eq!(hash_with_algorithm("abcd", &HashAlgorithm::Md5), unhex("e2fc714c4727ee9395f324cd2e7f331f"));
}

#[test]
fn sha256_and_sha3_of_abc() {
    assert_eq!(
        hash_with_algorithm("abc", &HashAlgorithm::Sha256),
        unhex("ba7816bf8f01cfea414140de5dae2223b00361a396177a9cb410ff61f20015ad")
    );
    assert_eq!(
        hash_with_algorithm("abc", &HashAlgorithm::Sha3_512),
        unhex("b751850b1a57168a5693cd924b6b096e08f621827444f70d884f5d0240d2712e10e116e9192af3c91a7ec57647e3934057340b4cf408d5a56592f8274eec53f0")
    );
}

#[test]
fn reduction_of_zero_digest_is_spaces() {
    let r = reduction_function(&vec![0u8; 16], 0, 4, &Radix::new(95));
    assert_eq!(r, b"    ".to_vec());
}

#[test]
fn reduction_adds_round_and_writes_base95_digits() {
    // 1 + 0 = 1 -> digits [1, 0, 0]
    assert_eq!(reduction_function(&vec![1u8, 0, 0], 0, 3, &Radix::new(95)), b"!  ".to_vec());
    // 0 + 96 = 1 * 95 + 1 -> digits [1, 1, 0]
    assert_eq!(reduction_function(&vec![0u8; 4], 96, 3, &Radix::new(95)), b"!! ".to_vec());
    // 300 = 0x012c little-endian; 300 = 3 * 95 + 15 -> digits [15, 3]
    assert_eq!(reduction_function(&vec![0x2c, 0x01], 0, 2, &Radix::new(95)), vec![47u8, 35u8]);
    // only the low digits are kept: 95^2 + 2 -> digits [2, 0] for length 2
    let n: u32 = 95 * 95 + 2;
    let d = n.to_le_bytes().to_vec();
    assert_eq!(reduction_function(&d, 0, 2, &Radix::new(95)), vec![34u8, 32u8]);
}

#[test]
fn reduction_range_and_length() {
    let digest = vec![0xffu8; 64];
    for round in [0u128, 1, 5, u128::MAX] {
        for len in [1u32, 4, 20, 255] {
            let r = reduction_function(&digest, round, len, &Radix::new(95));
            assert_eq!(r.len(), len as usize);
            assert!(r.iter().all(|&c| (32..=126).contains(&c)));
        }
    }
}

#[test]
fn reduction_depends_on_round() {
    let d = hash_with_algorithm("abcd", &HashAlgorithm::Md5);
    let a = reduction_function(&d, 0, 4, &Radix::new(95));
    let b = reduction_function(&d, 1, 4, &Radix::new(95));
    assert_ne!(a, b);
}

#[test]
fn charset_indexing_reduction() {
    assert_eq!(reduce("ab", 3, b"xy", 32), "yxy");
    assert_eq!(reduce("a", 2, b"xyz", 32), "yy");
}

#[test]
fn radix_keeps_its_base() {
    assert_eq!(Radix::new(95).get(), 95);
}

#[test]
fn chain_of_zero_links_is_start() {
    assert_eq!(create_chain(b"abcd".to_vec(), 0, &HashAlgorithm::Md5).unwrap(), b"abcd".to_vec());
}

#[test]
fn chain_is_reproducible_and_printable() {
    let a = create_chain(b"abcd".to_vec(), 5, &HashAlgorithm::Sha256).unwrap();
    let b = create_chain(b"abcd".to_vec(), 5, &HashAlgorithm::Sha256).unwrap();
    assert_eq!(a, b);
    assert_eq!(a.len(), 4);
    assert!(a.iter().all(|&c| (32..=126).contains(&c)));
}

#[test]
fn chain_refuses_scrypt() {
    let r = create_chain(b"abcd".to_vec(), 5, &HashAlgorithm::Scrypt);
    assert!(matches!(r, Err(HashassinError::InvalidInput(_))));
}

#[test]
fn chain_refuses_overlong_password() {
    let r = create_chain(vec![b'a'; 256], 1, &HashAlgorithm::Md5);
    assert!(matches!(r, Err(HashassinError::InvalidInput(_))));
}

#[test]
fn chain_round_trip_from_every_depth() {
    for algo in [HashAlgorithm::Md5, HashAlgorithm::Sha256, HashAlgorithm::Sha3_512] {
        let start = b"abcd".to_vec();
        let end = create_chain(start.clone(), 5, &algo).unwrap();
        for j in 0..5u32 {
            let p = walk_links(start.clone(), 0, j, 4, &algo);
            let h = hash_bytes(&p, &algo);
            let found = crack_chain(&h, &start, &end, 5, 4, &algo).expect("found");
            assert_eq!(hash_bytes(&found, &algo), h);
        }
    }
}

#[test]
fn crack_chain_misses_foreign_digest() {
    let start = b"abcd".to_vec();
    let end = create_chain(start.clone(), 3, &HashAlgorithm::Md5).unwrap();
    let h = hash_bytes(b"zzzz", &HashAlgorithm::Md5);
    assert_eq!(crack_chain(&h, &start, &end, 3, 4, &HashAlgorithm::Md5), None);
}

#[test]
fn gen_passwords_three_of_length_four() {
    let plan = plan_password_workers(1, 3).unwrap();
    assert_eq!(plan, vec![3]);
    let mut lines = Vec::new();
    for count in plan {
        for _ in 0..count {
            lines.push(generate_random_string(4));
        }
    }
    assert_eq!(lines.len(), 3);
    for l in lines {
        assert_eq!(l.chars().count(), 4);
        assert!(l.chars().all(|c| (32..=126).contains(&(c as u32))));
    }
}

#[test]
fn worker_plan_covers_exactly_num() {
    assert_eq!(plan_password_workers(4, 3).unwrap(), vec![1, 1, 1]);
    assert_eq!(plan_password_workers(2, 5).unwrap(), vec![3, 2]);
    assert_eq!(plan_password_workers(3, 9).unwrap(), vec![3, 3, 3]);
    assert_eq!(plan_password_workers(3, 0).unwrap(), Vec::<usize>::new());
    assert!(matches!(plan_password_workers(0, 3), Err(HashassinError::InvalidThreadCount)));
}

#[test]
fn gen_hashes_md5_of_pass() {
    let out = hash_file_contents(&pws(&["pass"]), &HashAlgorithm::Md5).unwrap();
    let mut want = vec![0x01, 0x03, 0x6d, 0x64, 0x35, 0x04];
    want.extend(unhex("1a1dc91c907325c69271ddf0c944bc72"));
    assert_eq!(out, want);
}

#[test]
fn gen_hashes_empty_and_overlong() {
    assert_eq!(hash_file_contents(&Vec::new(), &HashAlgorithm::Md5).unwrap(), Vec::<u8>::new());
    let r = hash_file_contents(&vec![vec![b'a'; 300]], &HashAlgorithm::Md5);
    assert!(matches!(r, Err(HashassinError::InvalidInput(_))));
}

#[test]
fn hash_job_checks() {
    assert!(matches!(check_hash_job(0, b"md5"), Err(HashassinError::InvalidThreadCount)));
    assert!(matches!(check_hash_job(1, b"foo"), Err(HashassinError::UnknownAlgorithm(_))));
    assert_eq!(check_hash_job(2, b"SHA256").unwrap(), HashAlgorithm::Sha256);
}

#[test]
fn gen_rainbow_table_header_and_records() {
    let out = rainbow_table_contents(&pws(&["abcd", "wxyz"]), 5, &HashAlgorithm::Md5).unwrap();
    let mut head = b"rainbowtable".to_vec();
    head.extend([0x01, 0x03, 0x6d, 0x64, 0x35, 0x04]);
    head.extend([0u8; 15]);
    head.push(0x5f);
    head.extend([0u8; 15]);
    head.push(0x05);
    head.push(0x20);
    assert_eq!(&out[..head.len()], &head[..]);
    assert_eq!(out.len(), head.len() + 2 * 8);
    let e0 = create_chain(b"abcd".to_vec(), 5, &HashAlgorithm::Md5).unwrap();
    let e1 = create_chain(b"wxyz".to_vec(), 5, &HashAlgorithm::Md5).unwrap();
    assert_eq!(&out[head.len()..head.len() + 8], &chain_record(b"abcd", &e0)[..]);
    assert_eq!(&out[head.len() + 8..], &chain_record(b"wxyz", &e1)[..]);
}

#[test]
fn gen_rainbow_table_refusals() {
    assert!(matches!(rainbow_table_contents(&pws(&["abcd"]), 5, &HashAlgorithm::Scrypt), Err(HashassinError::InvalidInput(_))));
    assert!(matches!(rainbow_table_contents(&vec![vec![b'a'; 256]], 5, &HashAlgorithm::Md5), Err(HashassinError::InvalidInput(_))));
    assert_eq!(rainbow_table_contents(&Vec::new(), 5, &HashAlgorithm::Md5).unwrap(), Vec::<u8>::new());
    assert!(matches!(table_algorithm(b"scrypt"), Err(HashassinError::UnknownAlgorithm(_))));
    assert!(matches!(table_algorithm(b"foo"), Err(HashassinError::UnknownAlgorithm(_))));
    assert_eq!(table_algorithm(b"MD5").unwrap(), HashAlgorithm::Md5);
}

#[test]
fn validate_inputs_errors() {
    assert!(validate_inputs(5, 1, "out", "md5", "in").is_ok());
    assert!(matches!(validate_inputs(0, 1, "out", "md5", "in"), Err(HashassinError::InvalidInput(_))));
    assert!(matches!(validate_inputs(5, 0, "out", "md5", "in"), Err(HashassinError::InvalidThreadCount)));
    assert!(matches!(validate_inputs(5, 1, "", "md5", "in"), Err(HashassinError::InvalidInput(_))));
    assert!(matches!(validate_inputs(5, 1, "out", "", "in"), Err(HashassinError::InvalidInput(_))));
    assert!(matches!(validate_inputs(5, 1, "out", "md5", ""), Err(HashassinError::InvalidInput(_))));
}

#[test]
fn local_crack_round_trip() {
    let table = rainbow_table_contents(&pws(&["abcd"]), 5, &HashAlgorithm::Md5).unwrap();
    let hashes = hash_file_contents(&pws(&["abcd"]), &HashAlgorithm::Md5).unwrap();
    let t = load_rainbow_table(&table).unwrap();
    let hs = load_hashes(&hashes, &t.algorithm).unwrap();
    let lines = crack_passwords(&t, &hs).unwrap();
    assert_eq!(lines, vec!["e2fc714c4727ee9395f324cd2e7f331f\tabcd".to_string()]);
}

#[test]
fn local_crack_finds_nothing() {
    let table = rainbow_table_contents(&pws(&["abcd"]), 5, &HashAlgorithm::Md5).unwrap();
    let hashes = hash_file_contents(&pws(&["qqqq"]), &HashAlgorithm::Md5).unwrap();
    let t = load_rainbow_table(&table).unwrap();
    let hs = load_hashes(&hashes, &t.algorithm).unwrap();
    assert!(matches!(crack_passwords(&t, &hs), Err(HashassinError::CustomError(_))));
}

#[test]
fn load_hashes_rejects_ragged_body() {
    let mut bytes = hash_file_contents(&pws(&["abcd"]), &HashAlgorithm::Md5).unwrap();
    bytes.push(7);
    assert!(matches!(load_hashes(&bytes, &HashAlgorithm::Md5), Err(HashassinError::InvalidHashLength(_))));
    assert!(matches!(load_hashes(&[1u8], &HashAlgorithm::Md5), Err(HashassinError::FileRead(_))));
}

#[test]
fn load_table_refuses_scrypt_name() {
    let mut bytes = b"rainbowtable".to_vec();
    bytes.extend([1, 6]);
    bytes.extend(b"scrypt");
    bytes.push(4);
    bytes.extend([0u8; 32]);
    bytes.push(32);
    assert!(matches!(load_rainbow_table(&bytes), Err(HashassinError::UnknownAlgorithm(_))));
}

#[test]
fn table_parse_errors() {
    assert!(matches!(parse_rainbow_table(b"rainbow"), Err(HashassinError::FileRead(_))));
    assert!(matches!(parse_rainbow_table(b"notarainbowtable...."), Err(HashassinError::InvalidInput(_))));
    let mut short = b"rainbowtable".to_vec();
    short.extend([1, 3]);
    short.extend(b"md5");
    assert!(matches!(parse_rainbow_table(&short), Err(HashassinError::FileRead(_))));
    let zero = rainbow_table_header(&HashAlgorithm::Md5, 0, 5);
    assert!(matches!(parse_rainbow_table(&zero), Err(HashassinError::InvalidFormat(_))));
}

#[test]
fn table_format_round_trip() {
    let mut bytes = rainbow_table_header(&HashAlgorithm::Sha256, 3, 77);
    bytes.extend(chain_record(b"abc", b"xyz"));
    bytes.extend(chain_record(b"def", b"uvw"));
    let t = parse_rainbow_table(&bytes).unwrap();
    assert_eq!(t.header.version, 1);
    assert_eq!(t.header.algorithm, b"sha256".to_vec());
    assert_eq!(t.header.password_len, 3);
    assert_eq!(t.header.charset_size, 95);
    assert_eq!(t.header.num_links, 77);
    assert_eq!(t.header.ascii_offset, 32);
    assert_eq!(t.chains.len(), 2);
    assert_eq!(t.chains[1].start, b"def".to_vec());
    assert_eq!(t.chains[1].end, b"uvw".to_vec());
    assert_eq!(t.trailing, 0);
}

#[test]
fn hash_format_round_trip() {
    let mut bytes = hash_file_header(&HashAlgorithm::Md5, 4);
    let d1 = hash_bytes(b"aaaa", &HashAlgorithm::Md5);
    let d2 = hash_bytes(b"bbbb", &HashAlgorithm::Md5);
    bytes.extend(&d1);
    bytes.extend(&d2);
    let f = parse_hash_file(&bytes).unwrap();
    assert_eq!(f.version, 1);
    assert_eq!(f.algorithm, b"md5".to_vec());
    assert_eq!(f.password_len, 4);
    assert_eq!(split_digests(&f.body, 16), vec![d1, d2]);
}

#[test]
fn algorithm_names_ignore_case() {
    assert_eq!(algorithm_from_name(b"Sha3_512"), Some(HashAlgorithm::Sha3_512));
    assert_eq!(algorithm_from_name(b"SCRYPT"), Some(HashAlgorithm::Scrypt));
    assert_eq!(algorithm_from_name(b"sha512"), None);
    assert_eq!(get_hash_size(b"MD5"), Some(16));
    assert_eq!(get_hash_size(b"scrypt"), Some(0));
    assert_eq!(get_hash_size(b"crc"), None);
}

#[test]
fn dump_table_header_only() {
    let bytes = rainbow_table_header(&HashAlgorithm::Md5, 4, 5);
    let lines = dump_rainbow_table(&bytes).unwrap();
    assert_eq!(
        lines,
        vec![
            "Hashassin Rainbow Table",
            "VERSION: 1",
            "ALGORITHM: md5",
            "PASSWORD LENGTH: 4",
            "CHAR SET SIZE: 95",
            "NUM LINKS: 5",
            "ASCII OFFSET: 32",
        ]
    );
}

#[test]
fn dump_table_with_chains() {
    let bytes = rainbow_table_contents(&pws(&["abcd", "wxyz"]), 5, &HashAlgorithm::Md5).unwrap();
    let lines = dump_rainbow_table(&bytes).unwrap();
    assert_eq!(lines.len(), 9);
    let e0 = create_chain(b"abcd".to_vec(), 5, &HashAlgorithm::Md5).unwrap();
    assert_eq!(lines[7], format!("abcd\t{}", String::from_utf8(e0).unwrap()));
}

#[test]
fn dump_table_errors() {
    let mut bytes = rainbow_table_header(&HashAlgorithm::Md5, 4, 5);
    bytes.extend(b"abc");
    assert!(matches!(dump_rainbow_table(&bytes), Err(HashassinError::InvalidInput(_))));
    let mut bad = b"rainbowtable".to_vec();
    bad.extend([1, 1, 0xff, 4]);
    bad.extend([0u8; 32]);
    bad.push(32);
    assert!(matches!(dump_rainbow_table(&bad), Err(HashassinError::InvalidInput(_))));
}

#[test]
fn dump_hashes_md5() {
    let bytes = hash_file_contents(&pws(&["pass", "abcd"]), &HashAlgorithm::Md5).unwrap();
    let lines = dump_hashes(&bytes).unwrap();
    assert_eq!(
        lines,
        vec![
            "VERSION: 1",
            "ALGORITHM: md5",
            "PASSWORD LENGTH: 4",
            "1a1dc91c907325c69271ddf0c944bc72",
            "e2fc714c4727ee9395f324cd2e7f331f",
        ]
    );
}

#[test]
fn dump_hashes_scrypt_splits_on_marker() {
    let mut bytes = vec![1u8, 6];
    bytes.extend(b"scrypt");
    bytes.push(4);
    bytes.extend(b"$scrypt$ln=17$aa$bb$scrypt$ln=17$cc$dd");
    let lines = dump_hashes(&bytes).unwrap();
    assert_eq!(
        lines,
        vec![
            "VERSION: 1",
            "ALGORITHM: scrypt",
            "PASSWORD LENGTH: 4",
            "$scrypt$ln=17$aa$bb",
            "$scrypt$ln=17$cc$dd",
        ]
    );
}

#[test]
fn dump_hashes_errors() {
    assert!(matches!(dump_hashes(&[1, 3, 0x6d]), Err(HashassinError::InvalidFormat(_))));
    assert!(matches!(dump_hashes(&[1, 9, 0x6d, 0x64]), Err(HashassinError::InvalidFormat(_))));
    assert!(matches!(dump_hashes(&[1, 3, b'c', b'r', b'c', 4]), Err(HashassinError::UnknownAlgorithm(_))));
    let mut trailing = hash_file_contents(&pws(&["pass"]), &HashAlgorithm::Md5).unwrap();
    trailing.extend([0, 0, 0]);
    assert_eq!(dump_hashes(&trailing).unwrap().len(), 4);
    trailing.push(9);
    assert!(matches!(dump_hashes(&trailing), Err(HashassinError::InvalidFormat(_))));
}

#[test]
fn cache_size_limits() {
    assert_eq!(cache_size_within_i32("2147483647"), Ok(2147483647));
    assert_eq!(cache_size_within_i32("+5"), Ok(5));
    assert_eq!(cache_size_within_i32("0"), Ok(0));
    assert!(cache_size_within_i32("2147483648").is_err());
    assert!(cache_size_within_i32("abc").unwrap_err().starts_with("Invalid number: "));
    assert!(cache_size_within_i32("").is_err());
}

#[test]
fn decimal_numerals() {
    assert_eq!(hashassin::text::decimal(0), "0");
    assert_eq!(hashassin::text::decimal(1234567), "1234567");
    assert_eq!(hashassin::text::decimal(u128::MAX), u128::MAX.to_string());
}

#[test]
fn no_passwords_found_text() {
    let hs = vec![vec![1u8; 16]];
    match hashassin::crack::cracked_lines(&hs, &vec![None]) {
        Err(HashassinError::CustomError(m)) => assert_eq!(m, "No passwords found."),
        other => panic!("unexpected {other:?}"),
    }
}

#[test]
fn cache_size_error_texts() {
    assert_eq!(cache_size_within_i32("2147483648"), Err("cache-size must be <= 2147483647 bytes".to_string()));
    assert!(cache_size_within_i32("99999999999999999999999").unwrap_err().starts_with("Invalid number: "));
}

#[test]
fn hash_bytes_widths() {
    assert_eq!(hash_bytes(b"", &HashAlgorithm::Md5).len(), 16);
    assert_eq!(hash_bytes(b"", &HashAlgorithm::Sha256).len(), 32);
    assert_eq!(hash_bytes(b"", &HashAlgorithm::Sha3_512).len(), 64);
}
