use google_pem::cache;
use google_pem::fetch::{body, process_headers, Age, ErrorProcess, Instant, UnixTime};
use google_pem::keys::{hash, FetchExtendError, Keys, ValidateError, KEYS_CAPACITY};
use google_pem::parse::unescape;
use google_pem::{parse, Parse};

static SAMPLE: &[u8] = b"HTTP/1.0 200 OK\r\nServer: scaffolding on HTTPServer2\r\nX-XSS-Protection: 0\r\nX-Frame-Options: SAMEORIGIN\r\nX-Content-Type-Options: nosniff\r\nDate: Fri, 26 Jan 2024 19:49:49 GMT\r\nExpires: Sat, 27 Jan 2024 02:00:59 GMT\r\nCache-Control: public, max-age=22270, must-revalidate, no-transform\r\nContent-Type: application/json; charset=UTF-8\r\nAge: 9\r\nAlt-Svc: h3=\":443\"; ma=2592000,h3-29=\":443\"; ma=2592000\r\nAccept-Ranges: none\r\nVary: Origin,X-Origin,Referer,Accept-Encoding\r\n\r\n{\n  \"48a63bc4767f8550a532dc630cf7eb49ff397e7c\": \"-----BEGIN CERTIFICATE-----\\nMIIDJjCCAg6gAwIBAgIITpARon8gBycwDQYJKoZIhvcNAQEFBQAwNjE0MDIGA1UE\\nAwwrZmVkZXJhdGVkLXNpZ25vbi5zeXN0ZW0uZ3NlcnZpY2VhY2NvdW50LmNvbTAe\\nFw0yNDAxMTUwNDM4MTNaFw0yNDAxMzExNjUzMTNaMDYxNDAyBgNVBAMMK2ZlZGVy\\nYXRlZC1zaWdub24uc3lzdGVtLmdzZXJ2aWNlYWNjb3VudC5jb20wggEiMA0GCSqG\\nSIb3DQEBAQUAA4IBDwAwggEKAoIBAQCrCvOXTp/AHo4ibrYjE0bs1c0gOaB0Gu9/\\nT2hvYaynpmYBeBTi2sc9Rit0FoCVTloelyFcJ/+ZUv5Tl3NGp5UVCxWqyPg8QgTo\\nTk4/DwTC6Y/Z/MtBKzCmQqYkkoVx2dx9DvfRAGidFQSEqQhuJh2JwmXnJOQ5F3T8\\nGZ90tX3yv6wTAQc3iXNMnXn7LD3Shv9Hq8AfjA/IJI3dd7n/NXpHgQ0vY2UqfYdP\\n2VtXseG1CieB5rzB+e2FSF1kffyQjhJLmcBoJU3EQDOW8m1Qh0KlKCNSBxtqH4PB\\njf2XgPzTSQvGRwXYIZc9KakXwY+zVpZKxi6ljyxNLL2oIUkU8XHxAgMBAAGjODA2\\nMAwGA1UdEwEB/wQCMAAwDgYDVR0PAQH/BAQDAgeAMBYGA1UdJQEB/wQMMAoGCCsG\\nAQUFBwMCMA0GCSqGSIb3DQEBBQUAA4IBAQBN1buL5aXabeBGUuQctOv5Op/yXrwx\\nsckGU0hPb1/9OBQzvJ1IXQ5XQBqyHLNI/alt1qAFp0Q/aY8G/Lf0FWlUZvRqYmJ1\\n34ZxZJBJRL2cl5cV3uke3meVcm4/MYIezJHA+VZ2ApVYWEYFU4757SwkKyXcP7vE\\nwInJwTcwNaEO7bpCD6UPGYUqX7HJ56woVDk/mq3Y7c2S7iloXODbivU+mHKNNowl\\nfp2cMnDCKAkNNFOJ9qGwv5VQ0ZLPn9P1c+0pjA9ym8Gq6AUUcDlf40PrmMi/X7iL\\nvEcijJS73YkPAMD+0X3DPsks2Y0HFZ4/zwELkbHQYgNeIwwEvT6AGvy6\\n-----END CERTIFICATE-----\\n\",\n  \"85e55107466b7e29836199c58c7581f5b923be44\": \"-----BEGIN CERTIFICATE-----\\nMIIDJzCCAg+gAwIBAgIJAIvQopve/48XMA0GCSqGSIb3DQEBBQUAMDYxNDAyBgNV\\nBAMMK2ZlZGVyYXRlZC1zaWdub24uc3lzdGVtLmdzZXJ2aWNlYWNjb3VudC5jb20w\\nHhcNMjQwMTIzMDQzODE0WhcNMjQwMjA4MTY1MzE0WjA2MTQwMgYDVQQDDCtmZWRl\\ncmF0ZWQtc2lnbm9uLnN5c3RlbS5nc2VydmljZWFjY291bnQuY29tMIIBIjANBgkq\\nhkiG9w0BAQEFAAOCAQ8AMIIBCgKCAQEA4tVDrq5RbeDtlJ2Xh2dikE840LWflr89\\nCm3cGI9mQGlskTigV0anoViOH92Z1sqWAp5e1aRkLlCm+KAWc69uvOW/X70jEhzD\\nJVREeB3h+RAnzxYrbUgDEgltiUaM8Zxtt8hiVh/GDAudRmSP9kDxXL5xnJETF1gn\\nwAHa0j7cM4STLKbtwKi73CEmTjTLqGAES8XVnXp8VWGb6IuQzdmBIJkfcFog4Inq\\n93F4Cj/SXsSjECG3j56VxgwnloPCHTXVn/xS1s3OjoBCOvOVSJfg2nSTWNi93JGR\\n9pWZevh7Sq8Clw8H2lvIAPV/HYdxvsucWg8sJuTa6ZZSxT1WmBkW6QIDAQABozgw\\nNjAMBgNVHRMBAf8EAjAAMA4GA1UdDwEB/wQEAwIHgDAWBgNVHSUBAf8EDDAKBggr\\nBgEFBQcDAjANBgkqhkiG9w0BAQUFAAOCAQEApInd0KdnkC03WXCAchOuIk9hCvoO\\nWKTlv0wapUx4I8F8qQBDkbDpRXhF4mxMwwemcIAtRWMf12wso9cukjnMw1xeo2ec\\nIaJFqHQGHsSXiU9XcIUhcS/X9tqXCVgY6FZUw9R/7k3fWw+se+R3sKKOKPUAt9sz\\n2AQ9F67emxiyVCgCD0nzx0sj0vy/Yr3GS9K4Y9UGMi2Vur8E2v/ZDko6VqcBFwIz\\ne1Vhwr5G8T6OsWf1xeEV+FpsUy2e14JhmsrNWYYMQgyxgBxH2LmNqyvudX7IVTsR\\n1Cep5Xa7BJbADYSEFiArwnlQ9p0QMNrzhPg7W8IoMMpDaSpQeQ1nYX2ecQ==\\n-----END CERTIFICATE-----\\n\"\n}\n";

const CERT_A: &str = "-----BEGIN CERTIFICATE-----\\nMIIDJjCCAg6gAwIBAgIITpARon8gBycwDQYJKoZIhvcNAQEFBQAwNjE0MDIGA1UE\\nAwwrZmVkZXJhdGVkLXNpZ25vbi5zeXN0ZW0uZ3NlcnZpY2VhY2NvdW50LmNvbTAe\\nFw0yNDAxMTUwNDM4MTNaFw0yNDAxMzExNjUzMTNaMDYxNDAyBgNVBAMMK2ZlZGVy\\nYXRlZC1zaWdub24uc3lzdGVtLmdzZXJ2aWNlYWNjb3VudC5jb20wggEiMA0GCSqG\\nSIb3DQEBAQUAA4IBDwAwggEKAoIBAQCrCvOXTp/AHo4ibrYjE0bs1c0gOaB0Gu9/\\nT2hvYaynpmYBeBTi2sc9Rit0FoCVTloelyFcJ/+ZUv5Tl3NGp5UVCxWqyPg8QgTo\\nTk4/DwTC6Y/Z/MtBKzCmQqYkkoVx2dx9DvfRAGidFQSEqQhuJh2JwmXnJOQ5F3T8\\nGZ90tX3yv6wTAQc3iXNMnXn7LD3Shv9Hq8AfjA/IJI3dd7n/NXpHgQ0vY2UqfYdP\\n2VtXseG1CieB5rzB+e2FSF1kffyQjhJLmcBoJU3EQDOW8m1Qh0KlKCNSBxtqH4PB\\njf2XgPzTSQvGRwXYIZc9KakXwY+zVpZKxi6ljyxNLL2oIUkU8XHxAgMBAAGjODA2\\nMAwGA1UdEwEB/wQCMAAwDgYDVR0PAQH/BAQDAgeAMBYGA1UdJQEB/wQMMAoGCCsG\\nAQUFBwMCMA0GCSqGSIb3DQEBBQUAA4IBAQBN1buL5aXabeBGUuQctOv5Op/yXrwx\\nsckGU0hPb1/9OBQzvJ1IXQ5XQBqyHLNI/alt1qAFp0Q/aY8G/Lf0FWlUZvRqYmJ1\\n34ZxZJBJRL2cl5cV3uke3meVcm4/MYIezJHA+VZ2ApVYWEYFU4757SwkKyXcP7vE\\nwInJwTcwNaEO7bpCD6UPGYUqX7HJ56woVDk/mq3Y7c2S7iloXODbivU+mHKNNowl\\nfp2cMnDCKAkNNFOJ9qGwv5VQ0ZLPn9P1c+0pjA9ym8Gq6AUUcDlf40PrmMi/X7iL\\nvEcijJS73YkPAMD+0X3DPsks2Y0HFZ4/zwELkbHQYgNeIwwEvT6AGvy6\\n-----END CERTIFICATE-----\\n";

const CERT_B: &str = "-----BEGIN CERTIFICATE-----\\nMIIDJzCCAg+gAwIBAgIJAIvQopve/48XMA0GCSqGSIb3DQEBBQUAMDYxNDAyBgNV\\nBAMMK2ZlZGVyYXRlZC1zaWdub24uc3lzdGVtLmdzZXJ2aWNlYWNjb3VudC5jb20w\\nHhcNMjQwMTIzMDQzODE0WhcNMjQwMjA4MTY1MzE0WjA2MTQwMgYDVQQDDCtmZWRl\\ncmF0ZWQtc2lnbm9uLnN5c3RlbS5nc2VydmljZWFjY291bnQuY29tMIIBIjANBgkq\\nhkiG9w0BAQEFAAOCAQ8AMIIBCgKCAQEA4tVDrq5RbeDtlJ2Xh2dikE840LWflr89\\nCm3cGI9mQGlskTigV0anoViOH92Z1sqWAp5e1aRkLlCm+KAWc69uvOW/X70jEhzD\\nJVREeB3h+RAnzxYrbUgDEgltiUaM8Zxtt8hiVh/GDAudRmSP9kDxXL5xnJETF1gn\\nwAHa0j7cM4STLKbtwKi73CEmTjTLqGAES8XVnXp8VWGb6IuQzdmBIJkfcFog4Inq\\n93F4Cj/SXsSjECG3j56VxgwnloPCHTXVn/xS1s3OjoBCOvOVSJfg2nSTWNi93JGR\\n9pWZevh7Sq8Clw8H2lvIAPV/HYdxvsucWg8sJuTa6ZZSxT1WmBkW6QIDAQABozgw\\nNjAMBgNVHRMBAf8EAjAAMA4GA1UdDwEB/wQEAwIHgDAWBgNVHSUBAf8EDDAKBggr\\nBgEFBQcDAjANBgkqhkiG9w0BAQUFAAOCAQEApInd0KdnkC03WXCAchOuIk9hCvoO\\nWKTlv0wapUx4I8F8qQBDkbDpRXhF4mxMwwemcIAtRWMf12wso9cukjnMw1xeo2ec\\nIaJFqHQGHsSXiU9XcIUhcS/X9tqXCVgY6FZUw9R/7k3fWw+se+R3sKKOKPUAt9sz\\n2AQ9F67emxiyVCgCD0nzx0sj0vy/Yr3GS9K4Y9UGMi2Vur8E2v/ZDko6VqcBFwIz\\ne1Vhwr5G8T6OsWf1xeEV+FpsUy2e14JhmsrNWYYMQgyxgBxH2LmNqyvudX7IVTsR\\n1Cep5Xa7BJbADYSEFiArwnlQ9p0QMNrzhPg7W8IoMMpDaSpQeQ1nYX2ecQ==\\n-----END CERTIFICATE-----\\n";

fn key_body(ids: &[&str]) -> Vec<u8> {
    let mut s = String::from("{\n");
    for (i, id) in ids.iter().enumerate() {
        let cert = if i % 2 == 0 { CERT_A } else { CERT_B };
        s.push_str(&format!("  \"{}\": \"{}\",\n", id, cert));
    }
    s.push('}');
    s.into_bytes()
}

fn collect(buf: &mut [u8]) -> Vec<(Vec<u8>, Vec<u8>)> {
    let mut p = parse(buf);
    let mut out = Vec::new();
    while let Some((id, key)) = p.next() {
        out.push((id.to_vec(), key.to_vec()));
    }
    out
}

#[test]
fn test_unescape() {
    let mut s = *b"hello\\nworld\\n";
    let n = unescape(&mut s);
    assert_eq!(&s[..n], b"hello\nworld\n")
}

#[test]
fn unescape_shortens_by_one_per_escape() {
    let mut s = *b"hello\\nworld\\n";
    assert_eq!(s.len(), 14);
    let n = unescape(&mut s);
    assert_eq!(n, 12);
}

#[test]
fn unescape_adjacent_escapes() {
    let mut s = *b"\\n\\n";
    let n = unescape(&mut s);
    assert_eq!(&s[..n], b"\n\n");
    let mut t = *b"a\\\\nb\\";
    let n = unescape(&mut t);
    assert_eq!(&t[..n], b"a\\\nb\\");
}

#[test]
fn test_process_headers() {
    let (age, body) = process_headers(SAMPLE).unwrap();
    assert_eq!(age, Age { age: 9, max_age: 22270 });
    assert!(&SAMPLE[body..].starts_with(b"{\n  \"48a63bc4767f85"))
}

#[test]
fn process_headers_without_age_header() {
    let r = process_headers(b"HTTP/1.0 200 OK\r\nCache-Control: max-age=60\r\n\r\n{}");
    let (age, b) = r.unwrap();
    assert_eq!(age, Age { age: 0, max_age: 60 });
    assert_eq!(b, 46);
}

#[test]
fn process_headers_missing_max_age() {
    let r = process_headers(b"HTTP/1.0 200 OK\r\nAge: 3\r\n\r\n{}");
    assert!(matches!(r, Err(ErrorProcess::MaxAge)));
}

#[test]
fn process_headers_missing_body() {
    let r = process_headers(b"HTTP/1.0 200 OK\r\nCache-Control: max-age=60\r\n");
    assert!(matches!(r, Err(ErrorProcess::Body)));
}

#[test]
fn process_headers_max_age_overflow() {
    let r = process_headers(b"HTTP/1.0 200 OK\r\nmax-age=99999999999999999999\r\n\r\n");
    assert!(matches!(r, Err(ErrorProcess::MaxAge)));
}

#[test]
fn body_offset() {
    assert_eq!(body(b"ab\r\n\r\ncd"), Some(6));
    assert_eq!(body(b"ab\r\ncd"), None);
}

#[test]
fn remaining_seconds() {
    assert_eq!(Age { age: 9, max_age: 22270 }.remaining(), 22261);
    assert_eq!(Age { age: 0, max_age: 0 }.remaining(), 0);
    assert_eq!(Age { age: 10, max_age: 5 }.remaining(), 0);
}

#[test]
fn expiration_adds_remaining() {
    let t = Age { age: 9, max_age: 22270 }.expiration(UnixTime { secs: 100 });
    assert_eq!(t, UnixTime { secs: 22361 });
    let t = Age { age: 50, max_age: 5 }.expiration(UnixTime { secs: 100 });
    assert_eq!(t, UnixTime { secs: 100 });
    let t = Age { age: 0, max_age: 10 }.expiration(UnixTime { secs: u64::MAX - 1 });
    assert_eq!(t, UnixTime { secs: u64::MAX });
}

#[test]
fn expiration_now_is_not_before_now() {
    let before = UnixTime::now();
    let t: UnixTime = Age { age: 0, max_age: 100 }.expiration_now();
    assert!(before.is_before(&t));
}

#[test]
fn parse_yields_pairs_in_order() {
    let mut buf = *b"{\"id1\": \"a\\nb\", \"id2\": \"c\\n\\nd\"}";
    let pairs = collect(&mut buf);
    assert_eq!(pairs.len(), 2);
    assert_eq!(pairs[0], (b"id1".to_vec(), b"a\nb".to_vec()));
    assert_eq!(pairs[1], (b"id2".to_vec(), b"c\n\nd".to_vec()));
    for (_, key) in &pairs {
        assert!(!key.windows(2).any(|w| w == b"\\n"));
    }
}

#[test]
fn parse_empty_and_trailing_quotes() {
    let mut empty: [u8; 0] = [];
    assert_eq!(collect(&mut empty).len(), 0);
    let mut buf = *b"\"a\":\"b\" \"c\":\"d";
    let pairs = collect(&mut buf);
    assert_eq!(pairs.len(), 1);
    assert_eq!(pairs[0], (b"a".to_vec(), b"b".to_vec()));
}

#[test]
fn parse_sample_body() {
    let mut buf = SAMPLE.to_vec();
    let (_, b) = process_headers(&buf).unwrap();
    let mut p = Parse::new(&mut buf[b..]);
    let (id, key) = p.next().unwrap();
    assert_eq!(id, b"48a63bc4767f8550a532dc630cf7eb49ff397e7c");
    assert!(key.starts_with(b"-----BEGIN CERTIFICATE-----\nMIID"));
    let (id, _) = p.next().unwrap();
    assert_eq!(id, b"85e55107466b7e29836199c58c7581f5b923be44");
    assert!(p.next().is_none());
}

#[test]
fn hash_depends_on_id() {
    assert_eq!(hash(b"abc"), hash(b"abc"));
    assert_ne!(hash(b"abc"), hash(b"abd"));
}

#[test]
fn table_capacity_reports_dropped_keys() {
    let mut buf = key_body(&["k1", "k2", "k3", "k4", "k5"]);
    let mut keys = Keys::new();
    let all = keys.extend_try(&mut parse(&mut buf)).unwrap();
    assert!(!all);
    assert_eq!(keys.len(), KEYS_CAPACITY);
    for id in ["k1", "k2", "k3", "k4"] {
        assert!(keys.get(id.as_bytes()).is_some());
    }
    assert!(keys.get(b"k5").is_none());
}

#[test]
fn table_all_fit() {
    let mut buf = key_body(&["k1", "k2"]);
    let mut keys = Keys::new();
    assert!(keys.extend_try(&mut parse(&mut buf)).unwrap());
    assert_eq!(keys.len(), 2);
    let listed = keys.iter();
    assert_eq!(listed.len(), 2);
    assert_eq!(listed[0].0, hash(b"k1"));
    assert_eq!(listed[1].0, hash(b"k2"));
}

#[test]
fn clear_then_len_is_zero() {
    let mut buf = key_body(&["k1", "k2"]);
    let mut keys = Keys::new();
    keys.extend_try(&mut parse(&mut buf)).unwrap();
    keys.clear();
    assert_eq!(keys.len(), 0);
    assert!(keys.is_empty());
    keys.clear();
    assert_eq!(keys.len(), 0);
}

#[test]
fn full_table_rejects_push() {
    let mut buf = key_body(&["k1", "k2", "k3", "k4"]);
    let mut keys = Keys::new();
    assert!(keys.extend_try(&mut parse(&mut buf)).unwrap());
    let before: Vec<u64> = keys.iter().iter().map(|e| e.0).collect();
    let mut extra = key_body(&["k5"]);
    let (_, pem) = parse(&mut extra).next().unwrap();
    assert!(!keys.push(b"k5", pem).unwrap());
    let after: Vec<u64> = keys.iter().iter().map(|e| e.0).collect();
    assert_eq!(before, after);
}

#[test]
fn push_rejects_bad_key() {
    let mut keys = Keys::new();
    assert!(keys.push(b"id", b"not a key").is_err());
    assert_eq!(keys.len(), 0);
}

#[test]
fn extend_stops_at_bad_key() {
    let mut buf = b"{\"k1\": \"".to_vec();
    buf.extend_from_slice(CERT_A.as_bytes());
    buf.extend_from_slice(b"\", \"k2\": \"garbage\", \"k3\": \"");
    buf.extend_from_slice(CERT_B.as_bytes());
    buf.extend_from_slice(b"\"}");
    let mut keys = Keys::new();
    assert!(keys.extend_try(&mut parse(&mut buf)).is_err());
    assert_eq!(keys.len(), 1);
    assert!(keys.get(b"k1").is_some());
    assert!(keys.get(b"k3").is_none());
}

#[test]
fn extend_response_reads_sample() {
    let mut buf = SAMPLE.to_vec();
    let mut keys = Keys::new();
    let (all, age) = keys.extend_response(&mut buf).unwrap();
    assert!(all);
    assert_eq!(age, Age { age: 9, max_age: 22270 });
    assert_eq!(keys.len(), 2);
    assert!(keys.get(b"85e55107466b7e29836199c58c7581f5b923be44").is_some());
}

#[test]
fn extend_response_header_error() {
    let mut buf = b"HTTP/1.0 200 OK\r\n\r\n{}".to_vec();
    let mut keys = Keys::new();
    let r = keys.extend_response(&mut buf);
    assert!(matches!(r, Err(FetchExtendError::HttpProcess(ErrorProcess::MaxAge))));
}

#[test]
fn unknown_key_id() {
    let empty = Keys::new();
    assert!(matches!(empty.key_for_kid(Some("absent-key-id")), Err(ValidateError::UnknownKey)));
    let mut buf = key_body(&["k1", "k2"]);
    let mut keys = Keys::new();
    keys.extend_try(&mut parse(&mut buf)).unwrap();
    assert!(matches!(keys.key_for_kid(Some("absent-key-id")), Err(ValidateError::UnknownKey)));
    assert!(keys.key_for_kid(Some("k2")).is_ok());
    assert!(matches!(keys.key_for_kid(None), Err(ValidateError::TokenMissingKeyId)));
    let token = "eyJhbGciOiJSUzI1NiIsImtpZCI6ImFic2VudC1rZXktaWQifQ.e30.c2ln";
    assert!(matches!(keys.key_for_token(token), Err(ValidateError::UnknownKey)));
    assert!(matches!(empty.key_for_token(token), Err(ValidateError::UnknownKey)));
}

#[test]
fn token_header_errors() {
    let keys = Keys::new();
    assert!(matches!(keys.key_for_token("not a token"), Err(ValidateError::DecodeHeader(_))));
    let token = "eyJhbGciOiJSUzI1NiJ9.e30.c2ln";
    assert!(matches!(keys.key_for_token(token), Err(ValidateError::TokenMissingKeyId)));
}

fn validate_with(cache: &mut cache::Keys<UnixTime>, now: UnixTime, fetches: &mut u32) {
    if !cache.is_valid_at(&now) {
        *fetches += 1;
        let mut buf = SAMPLE.to_vec();
        cache.refresh(&mut buf, now).unwrap();
    }
    assert!(cache.keys.key_for_kid(Some("48a63bc4767f8550a532dc630cf7eb49ff397e7c")).is_ok());
}

#[test]
fn cache_fetches_only_when_stale() {
    let mut cache: cache::Keys<UnixTime> = cache::Keys::new();
    let mut fetches = 0;
    validate_with(&mut cache, UnixTime { secs: 1000 }, &mut fetches);
    assert_eq!(fetches, 1);
    validate_with(&mut cache, UnixTime { secs: 1000 + 22260 }, &mut fetches);
    assert_eq!(fetches, 1);
    validate_with(&mut cache, UnixTime { secs: 1000 + 22261 }, &mut fetches);
    assert_eq!(fetches, 2);
}

#[test]
fn cache_failed_refresh_leaves_it_stale() {
    let mut cache: cache::Keys<UnixTime> = cache::Keys::new();
    let mut bad = b"HTTP/1.0 200 OK\r\nAge: 1\r\n\r\n{}".to_vec();
    let r = cache.refresh(&mut bad, UnixTime { secs: 5 });
    assert!(matches!(r, Err(cache::Error::FetchExtend(FetchExtendError::HttpProcess(ErrorProcess::MaxAge)))));
    assert_eq!(cache.keys.len(), 0);
    assert!(!cache.is_valid_at(&UnixTime { secs: 5 }));
    assert!(!cache.is_valid());
}

#[test]
fn push_parsed_key() {
    let mut buf = key_body(&["k1"]);
    let (_, pem) = parse(&mut buf).next().unwrap();
    let key = jsonwebtoken::DecodingKey::from_rsa_pem(pem).unwrap();
    let mut keys = Keys::default();
    keys.push_key(b"k1", key);
    assert_eq!(keys.len(), 1);
    assert!(keys.get(b"k1").is_some());
    assert!(keys.get(b"k2").is_none());
}

#[test]
fn unix_time_expiry() {
    assert!(UnixTime { secs: 0 }.is_expired());
    assert!(!UnixTime { secs: u64::MAX }.is_expired());
    let mut t = UnixTime { secs: 10 };
    t.add_seconds(5);
    assert_eq!(t, UnixTime { secs: 15 });
    assert!(UnixTime { secs: 1 }.is_before(&t));
    assert!(!t.is_before(&t));
}
