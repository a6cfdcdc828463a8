use tap::dtls_tagger::{dtls_content_type, tag, DtlsTag};

fn record(content_type: u8, version: [u8; 2]) -> Vec<u8> {
    let mut v = vec![content_type, version[0], version[1]];
    v.extend(std::iter::repeat(0u8).take(10));
    v
}

#[test]
fn content_type_of_dtls_records() {
    assert_eq!(dtls_content_type(&record(23, [0xFE, 0xFD])), Some(23));
    assert_eq!(dtls_content_type(&record(22, [0xFE, 0xFF])), Some(22));
    assert_eq!(dtls_content_type(&record(20, [0xFE, 0xFD])), Some(20));
    assert_eq!(dtls_content_type(&record(24, [0xFE, 0xFD])), None);
    assert_eq!(dtls_content_type(&record(23, [0xFE, 0xFE])), None);
    assert_eq!(dtls_content_type(&record(23, [0x03, 0x03])), None);
    assert_eq!(dtls_content_type(&record(23, [0xFE, 0xFD])[..12]), None);
}

#[test]
fn needs_two_application_data_records() {
    let one = vec![record(23, [0xFE, 0xFD])];
    assert_eq!(tag(&one, &[]), None);
    let two = vec![record(22, [0xFE, 0xFD])];
    let back = vec![record(23, [0xFE, 0xFD]), record(23, [0xFE, 0xFF])];
    assert_eq!(
        tag(&two, &back),
        Some(DtlsTag { app_data_records: 2, saw_handshake: true })
    );
    assert_eq!(tag(&back, &two), tag(&two, &back));
    assert_eq!(
        tag(&back, &[]),
        Some(DtlsTag { app_data_records: 2, saw_handshake: false })
    );
}

#[test]
fn dtls_tag_ignores_split_and_grows_with_more_datagrams() {
    let app = record(23, [0xFE, 0xFD]);
    let hs = record(22, [0xFE, 0xFF]);
    let c2s = vec![app.clone(), hs.clone()];
    let s2c = vec![app.clone()];
    let expected = Some(DtlsTag { app_data_records: 2, saw_handshake: true });
    assert_eq!(tag(&c2s, &s2c), expected);
    assert_eq!(tag(&s2c, &c2s), expected);
    let all: Vec<Vec<u8>> = c2s.iter().chain(s2c.iter()).cloned().collect();
    assert_eq!(tag(&all, &[]), expected);
    let mut more = c2s.clone();
    more.push(app.clone());
    more.push(vec![1, 2, 3]);
    assert_eq!(tag(&more, &s2c), Some(DtlsTag { app_data_records: 3, saw_handshake: true }));
}
