use hashassin::cache_memory::{Cache, CrackedPassword};
use hashassin::client::{build_crack_request, build_upload_message};
use hashassin::compute_threads::CrackLimiter;
use hashassin::crack_hashes::{CrackPlan, crack, crack_passwords, plan_crack, record_cracked};
use hashassin::error::{HashassinError, ServerError};
use hashassin::format::ChainEntry;
use hashassin::generate_hashes::hash_file_contents;
use hashassin::generate_rainbow_table::rainbow_table_contents;
use hashassin::hash::{HashAlgorithm, hash_bytes};
use hashassin::save_rainbow_table::upload;
use hashassin::server::{Request, crack_response, error_response, parse_request, request_need};
use hashassin::chain::create_chain;

fn pws(list: &[&str]) -> Vec<Vec<u8>> {
    list.iter().map(|p| p.as_bytes().to_vec()).collect()
}

fn two_chain_table() -> Vec<u8> {
    rainbow_table_contents(&pws(&["abcd", "wxyz"]), 5, &HashAlgorithm::Md5).unwrap()
}

#[test]
fn server_upload_then_crack() {
    let mut cache = Cache::new_with_size(i32::MAX as usize);
    let message = build_upload_message("t1", &two_chain_table()).unwrap();
    let payload = match parse_request(&message).unwrap() {
        Request::Upload { version, name, payload, .. } => {
            assert_eq!(version, 1);
            assert_eq!(name, b"t1".to_vec());
            payload
        }
        _ => panic!("expected an upload"),
    };
    let reply = upload(&mut cache, &payload).unwrap();
    assert_eq!(reply, "Successfully uploaded 2 chains for algorithm 'md5'");

    let hashes = hash_file_contents(&pws(&["abcd"]), &HashAlgorithm::Md5).unwrap();
    let request = build_crack_request(&hashes);
    let payload = match parse_request(&request).unwrap() {
        Request::Crack { payload, payload_size, .. } => {
            assert_eq!(payload_size as usize, hashes.len());
            payload
        }
        _ => panic!("expected a crack request"),
    };
    let found = crack(&mut cache, &payload).unwrap();
    assert_eq!(found.len(), 1);
    assert_eq!(found[0].hash, "e2fc714c4727ee9395f324cd2e7f331f");
    assert_eq!(found[0].password, "abcd");
    let text = crack_response(&found);
    assert!(text.starts_with("Successfully Cracked Password\n"));
    assert!(text.lines().any(|l| l == "e2fc714c4727ee9395f324cd2e7f331f: abcd"));

    // the second time the answer comes from the cracked cache
    let again = crack(&mut cache, &payload).unwrap();
    assert_eq!(again[0].password, "abcd");
    let cached = cache.get_cracked_password("md5", "e2fc714c4727ee9395f324cd2e7f331f").unwrap();
    assert_eq!(cached.password, "abcd");
}

#[test]
fn crack_errors() {
    let mut cache = Cache::new_with_size(1000);
    let hashes = hash_file_contents(&pws(&["abcd"]), &HashAlgorithm::Md5).unwrap();
    assert!(matches!(crack(&mut cache, &hashes), Err(ServerError::NoRainbowTableFound)));
    upload(&mut cache, &two_chain_table()).unwrap();
    let other = hash_file_contents(&pws(&["qqqq"]), &HashAlgorithm::Md5).unwrap();
    assert!(matches!(crack(&mut cache, &other), Err(ServerError::NoPasswordsFound)));
    let scrypt = vec![1u8, 6, b's', b'c', b'r', b'y', b'p', b't', 4];
    assert!(matches!(crack(&mut cache, &scrypt), Err(ServerError::InvalidAlgorithm)));
    assert!(matches!(crack(&mut cache, &[1u8]), Err(ServerError::IoError(_))));
}

#[test]
fn upload_errors_leave_cache_alone() {
    let mut cache = Cache::new_with_size(1000);
    assert!(matches!(upload(&mut cache, b"rainbowtab"), Err(ServerError::MetadataError)));
    let mut bad = b"rainbowtable".to_vec();
    bad.extend([1, 1, 0xff, 4]);
    bad.extend([0u8; 32]);
    bad.push(32);
    assert!(matches!(upload(&mut cache, &bad), Err(ServerError::Utf8Error(_))));
    assert!(matches!(cache.get_all_chains("md5", 4), Err(ServerError::NoRainbowTableFound)));
}

#[test]
fn upload_keeps_well_formed_prefix() {
    let mut cache = Cache::new_with_size(1000);
    let mut table = two_chain_table();
    table.extend(b"abc");
    let reply = upload(&mut cache, &table).unwrap();
    assert_eq!(reply, "Successfully uploaded 2 chains for algorithm 'md5'");
}

#[test]
fn chains_are_grouped_by_length_and_links() {
    let mut cache = Cache::new_with_size(1000);
    cache.insert_chain("md5", 4, 5, ChainEntry::new(b"abcd".to_vec(), b"efgh".to_vec()));
    cache.insert_chain("md5", 4, 5, ChainEntry::new(b"ijkl".to_vec(), b"mnop".to_vec()));
    cache.insert_chain("md5", 4, 7, ChainEntry::new(b"qrst".to_vec(), b"uvwx".to_vec()));
    cache.insert_chain("md5", 3, 5, ChainEntry::new(b"abc".to_vec(), b"def".to_vec()));
    let all = cache.get_all_chains("md5", 4).unwrap();
    assert_eq!(all.len(), 2);
    let five = all.iter().find(|b| b.0 == 5).unwrap();
    assert_eq!(five.1.len(), 2);
    assert_eq!(five.1[1].start, b"ijkl".to_vec());
    let seven = all.iter().find(|b| b.0 == 7).unwrap();
    assert_eq!(seven.1.len(), 1);
    assert!(matches!(cache.get_all_chains("sha256", 4), Err(ServerError::NoRainbowTableFound)));
    assert!(matches!(cache.get_all_chains("md5", 9), Err(ServerError::NoRainbowTableFound)));
}

#[test]
fn cracked_entries_never_change() {
    let mut cache = Cache::new_with_size(1000);
    cache.insert_cracked_password("plain", CrackedPassword::new("aa".to_string(), "first".to_string()));
    cache.insert_cracked_password("plain", CrackedPassword::new("aa".to_string(), "second".to_string()));
    assert_eq!(cache.get_cracked_password("plain", "aa").unwrap().password, "first");
}

#[test]
fn cracked_cache_respects_budget() {
    let mut cache = Cache::new_with_size(10);
    cache.insert_cracked_password("plain", CrackedPassword::new("aa".to_string(), "123456".to_string()));
    cache.insert_cracked_password("plain", CrackedPassword::new("bb".to_string(), "123".to_string()));
    assert_eq!(cache.get_cracked_password("plain", "aa").unwrap().password, "123456");
    assert!(matches!(cache.get_cracked_password("plain", "bb"), Err(ServerError::PasswordNotFoundInCache)));
    cache.insert_cracked_password("plain", CrackedPassword::new("c".to_string(), "1".to_string()));
    assert_eq!(cache.get_cracked_password("plain", "c").unwrap().password, "1");
}

#[test]
fn cracked_lookup_errors() {
    let cache = Cache::new_with_size(10);
    assert!(matches!(cache.get_cracked_password("plain", "aa"), Err(ServerError::InvalidAlgorithm)));
}

#[test]
fn server_crack_passwords_once_per_digest() {
    let end = create_chain(b"abcd".to_vec(), 3, &HashAlgorithm::Md5).unwrap();
    let buckets = vec![(3u32, vec![ChainEntry::new(b"abcd".to_vec(), end)])];
    let h = hash_bytes(b"abcd", &HashAlgorithm::Md5);
    let found = crack_passwords(&buckets, &vec![h.clone(), h.clone()], &HashAlgorithm::Md5, 4).unwrap();
    assert_eq!(found, vec![(h, b"abcd".to_vec())]);
    let miss = hash_bytes(b"zzzz", &HashAlgorithm::Md5);
    assert!(matches!(crack_passwords(&buckets, &vec![miss], &HashAlgorithm::Md5, 4), Err(ServerError::NoPasswordsFound)));
}

#[test]
fn request_framing_errors() {
    assert!(matches!(parse_request(b"hello!"), Err(ServerError::InvalidMagicWord)));
    assert!(matches!(parse_request(b"cra"), Err(ServerError::IoError(_))));
    assert!(matches!(parse_request(b"crack\x01"), Err(ServerError::IoError(_))));
    assert!(matches!(parse_request(b"upload\x01\x05ab"), Err(ServerError::IoError(_))));
    assert!(matches!(build_upload_message(&"n".repeat(256), b""), Err(HashassinError::InvalidInput(_))));
}

#[test]
fn crack_request_bytes() {
    let m = build_crack_request(b"xy");
    assert_eq!(m, b"crack\x01\x00\x00\x00\x00\x00\x00\x00\x02xy".to_vec());
    let u = build_upload_message("t1", b"z").unwrap();
    assert_eq!(u, b"upload\x01\x02t1\x00\x00\x00\x00\x00\x00\x00\x01z".to_vec());
}

#[test]
fn error_replies() {
    assert_eq!(error_response(&ServerError::NoPasswordsFound), "Error: No passwords found");
    assert_eq!(error_response(&ServerError::IoError("early eof".to_string())), "Error: IO error: early eof");
    assert_eq!(ServerError::NoRainbowTableFound.message(), "Rainbow Table not found for the given hash file");
}

#[test]
fn crack_reply_joins_lines() {
    let found = vec![
        CrackedPassword::new("aa".to_string(), "x".to_string()),
        CrackedPassword::new("bb".to_string(), "y".to_string()),
    ];
    assert_eq!(crack_response(&found), "Successfully Cracked Password\naa: x\nbb: y");
    assert_eq!(crack_response(&Vec::new()), "Successfully Cracked Password\n");
}

#[test]
fn limiter_serializes_with_one_permit() {
    let mut l = CrackLimiter::new(1);
    assert!(l.acquire());
    assert!(!l.acquire());
    l.release();
    assert!(l.acquire());
    l.release();
    let mut two = CrackLimiter::new(2);
    assert!(two.acquire());
    assert!(two.acquire());
    assert!(!two.acquire());
}

#[test]
fn crack_in_phases() {
    let mut cache = Cache::new_with_size(1000);
    upload(&mut cache, &two_chain_table()).unwrap();
    let hashes = hash_file_contents(&pws(&["wxyz"]), &HashAlgorithm::Md5).unwrap();
    let plan = plan_crack(&cache, &hashes).unwrap();
    let found = match plan {
        CrackPlan::Search { algorithm, name, password_len, hashes, buckets } => {
            assert_eq!(name, "md5");
            assert_eq!(password_len, 4);
            let found = crack_passwords(&buckets, &hashes, &algorithm, password_len).unwrap();
            record_cracked(&mut cache, &algorithm, &found)
        }
        CrackPlan::Answered(_) => panic!("nothing was cached yet"),
    };
    assert_eq!(found[0].password, "wxyz");
    match plan_crack(&cache, &hashes).unwrap() {
        CrackPlan::Answered(v) => assert_eq!(v[0].password, "wxyz"),
        CrackPlan::Search { .. } => panic!("the answer is cached"),
    }
}

#[test]
fn crack_payload_size_is_honoured() {
    let hashes = hash_file_contents(&pws(&["abcd"]), &HashAlgorithm::Md5).unwrap();
    let mut request = build_crack_request(&hashes);
    request.extend(b"ignored");
    match parse_request(&request).unwrap() {
        Request::Crack { payload, .. } => assert_eq!(payload, hashes),
        _ => panic!("expected a crack request"),
    }
    let short = build_crack_request(&hashes);
    assert!(matches!(parse_request(&short[..short.len() - 1]), Err(ServerError::IoError(_))));
    let up = build_upload_message("t1", b"xyz").unwrap();
    assert!(matches!(parse_request(&up[..up.len() - 1]), Err(ServerError::IoError(_))));
}

#[test]
fn crack_offers_found_passwords_to_the_budget() {
    let mut cache = Cache::new_with_size(10);
    upload(&mut cache, &two_chain_table()).unwrap();
    let hashes = hash_file_contents(&pws(&["abcd"]), &HashAlgorithm::Md5).unwrap();
    let found = crack(&mut cache, &hashes).unwrap();
    assert_eq!(found[0].password, "abcd");
    // 32 hex characters and 4 bytes of password do not fit in 10 bytes
    assert!(matches!(
        cache.get_cracked_password("md5", "e2fc714c4727ee9395f324cd2e7f331f"),
        Err(ServerError::PasswordNotFoundInCache)
    ));
}

#[test]
fn request_need_follows_the_header() {
    let hashes = hash_file_contents(&pws(&["abcd"]), &HashAlgorithm::Md5).unwrap();
    let request = build_crack_request(&hashes);
    assert_eq!(request_need(&request[..3]).unwrap(), 5);
    assert_eq!(request_need(&request[..6]).unwrap(), 14);
    assert_eq!(request_need(&request[..14]).unwrap(), request.len() as u128);
    let up = build_upload_message("t1", b"xyz").unwrap();
    assert_eq!(request_need(&up[..5]).unwrap(), 6);
    assert_eq!(request_need(&up[..7]).unwrap(), 8);
    assert_eq!(request_need(&up[..8]).unwrap(), 18);
    assert_eq!(request_need(&up[..18]).unwrap(), up.len() as u128);
    assert!(matches!(request_need(b"hello!"), Err(ServerError::InvalidMagicWord)));
}

#[test]
fn tool_error_messages() {
    assert_eq!(HashassinError::InvalidThreadCount.message(), "The number of threads must be greater than zero.");
    assert_eq!(HashassinError::InvalidInput("x".to_string()).message(), "Invalid Input: x");
    assert_eq!(HashassinError::CustomError("No passwords found.".to_string()).message(), "No passwords found.");
}
