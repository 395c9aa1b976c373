use bitcask::format::{FormatError, Header, Record, HEADER_SIZE};

fn get_random_u32() -> u32 {
    let mut buf = [0u8; 4];
    getrandom::fill(&mut buf).unwrap();
    u32::from_ne_bytes(buf)
}

fn now_timestamp() -> u32 {
    let now = chrono::Local::now();
    now.timestamp() as u32
}

fn get_random_header() -> Header {
    Header {
        crc: 0,
        timestamp: get_random_u32(),
        key_size: get_random_u32(),
        value_size: get_random_u32(),
    }
}

fn encoded(text: &str) -> Vec<u8> {
    bincode::encode_to_vec(text, bincode::config::standard()).unwrap()
}

fn record_of(timestamp: u32, key: &str, value: &str) -> Record {
    Record::new(timestamp, encoded(key), encoded(value))
}

fn get_random_kv() -> Record {
    let timestamp = now_timestamp();
    let k = uuid::Uuid::new_v4().to_string();
    let v = uuid::Uuid::new_v4().to_string();

    record_of(timestamp, &k, &v)
}

fn header_test(header: Header) {
    let data = header.clone().encode();
    let same_header = Header::decode(data.try_into().unwrap());
    assert_eq!(header, same_header);
}

fn kv_test(kv: Record) {
    let data = kv.clone().encode();
    let same_kv = Record::decode(data).unwrap();
    assert_eq!(kv, same_kv)
}

#[test]
fn test_header_serialization() {
    let tests = vec![
        Header {
            crc: 0,
            timestamp: 10,
            key_size: 10,
            value_size: 10,
        },
        Header {
            crc: 0,
            timestamp: 0,
            key_size: 0,
            value_size: 0,
        },
        Header {
            crc: 0,
            timestamp: 10000,
            key_size: 10000,
            value_size: 10000,
        },
    ];
    for header in tests {
        header_test(header);
    }
}

#[test]
fn test_random_header() {
    for _ in 0..100 {
        let header = get_random_header();
        header_test(header);
    }
}

#[test]
fn test_kv_serialisation() {
    let tests = vec![record_of(now_timestamp(), "hello", "world"), record_of(0, "", "")];

    for test in tests {
        kv_test(test);
    }
}

#[test]
fn test_random_kv() {
    for _ in 0..100 {
        let kv = get_random_kv();
        kv_test(kv);
    }
}

#[test]
fn test_header_exact_bytes() {
    let header = Header { crc: 0, timestamp: 258, key_size: 2, value_size: 3 };
    assert_eq!(
        header.encode(),
        vec![0, 0, 0, 0, 0, 0, 1, 2, 0, 0, 0, 2, 0, 0, 0, 3]
    );
}

#[test]
fn test_record_roundtrip_empty_key_value() {
    let record = Record::new(7, Vec::new(), Vec::new());
    let data = record.clone().encode();
    assert_eq!(data.len(), HEADER_SIZE);
    assert_eq!(Record::decode(data).unwrap(), record);
}

#[test]
fn test_decode_short_header() {
    let r = Record::decode(vec![1, 2, 3]);
    assert_eq!(r.unwrap_err(), FormatError::Header(3));
}

#[test]
fn test_decode_short_key() {
    // Header declares a 5-byte key, but only 2 bytes follow.
    let header = Header { crc: 0, timestamp: 0, key_size: 5, value_size: 0 };
    let mut data = header.encode();
    data.extend_from_slice(&[8, 9]);
    let r = Record::decode(data);
    assert_eq!(r.unwrap_err(), FormatError::Key(2, 5));
}

#[test]
fn test_decode_short_value() {
    // Header declares a 1-byte key and a 4-byte value; only one value byte follows.
    let header = Header { crc: 0, timestamp: 0, key_size: 1, value_size: 4 };
    let mut data = header.encode();
    data.extend_from_slice(&[8, 9]);
    let r = Record::decode(data);
    assert_eq!(r.unwrap_err(), FormatError::Value(1, 4));
}
