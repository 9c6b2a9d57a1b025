use emdrive::config::{envify_config_key, get_env_cast_or, Config};
use emdrive::hamming::{distance, weight};
use emdrive::index::{parse_index_raw_data, Index};
use emdrive::components::DataInstanceRaw;
use emdrive::tokenizer::Function;

#[test]
fn hamming_weight_is_calculated_correctly() {
    assert_eq!(weight(0x0000000000000000ffffffffffffffff), 64);
    assert_eq!(weight(0b1101), 3);
}

#[test]
fn hamming_distance_is_calculated_correctly() {
    assert_eq!(distance(&0b0011, &0b0101), 2);
    assert_eq!(distance(&0b1111, &0b1111), 0);
    assert_eq!(
        distance(&0xf000000000000000ffffffffffffffff, &0x0000000000000000fff0ffffffffffff),
        8
    );
    assert_eq!(distance(&0, &0xffffffffffffffffffffffffffffffff), 128);
}

#[test]
fn data_raw_data_parsing_works() {
    let raw_data: Vec<u8> = vec![
        0xf0, 0x0f, 0x00, 0x00, 0xff, 0xff, 0x00, 0x00, 0xff, 0xff, 0x00, 0x00, 0x00, 0xff, 0xff,
        0xff,
    ];
    assert_eq!(parse_index_raw_data(raw_data, "test"), [0xf00f0000ffff0000ffff000000ffffff]);
}

#[test]
fn index_raw_data_parsing_works() {
    let dummy_index = Index::new("test");
    let raw_data: Vec<u8> = vec![
        0xf0, 0x0f, 0x00, 0x00, 0xff, 0xff, 0x00, 0x00, 0xff, 0xff, 0x00, 0x00, 0x00, 0xff, 0xff,
        0xff,
    ];
    assert_eq!(dummy_index.parse_index_raw_data(raw_data), [0xf00f0000ffff0000ffff000000ffffff]);
}

#[test]
fn index_data_with_two_entries() {
    let raw_data: Vec<u8> = vec![
        0xf0, 0x0f, 0x00, 0x00, 0xff, 0xff, 0x00, 0x00, 0xff, 0xff, 0x00, 0x00, 0x00, 0xff, 0xff,
        0xff, 0, 0, 0, 0, 0, 0, 0, 0, 0, 0, 0, 0, 0, 0, 0, 1,
    ];
    assert_eq!(parse_index_raw_data(raw_data, "test"), [0xf00f0000ffff0000ffff000000ffffff, 1]);
}

#[test]
fn index_entries_round_trip_through_bytes() {
    let mut index = Index::new("numbers");
    index.add(1);
    index.add(0xf00f0000ffff0000ffff000000ffffff);
    assert_eq!(index.get_data(), vec![1, 0xf00f0000ffff0000ffff000000ffffff]);
    let bytes = index.encode_data();
    assert_eq!(bytes.len(), 32);
    assert_eq!(bytes[15], 1);
    assert_eq!(index.parse_index_raw_data(bytes), index.get_data());
}

#[test]
fn config_keys_become_environment_names() {
    assert_eq!(envify_config_key("data_directory"), "EMDRIVE_DATA_DIRECTORY");
    assert_eq!(envify_config_key("tcp_listen_port"), "EMDRIVE_TCP_LISTEN_PORT");
}

#[test]
fn config_defaults_and_overrides() {
    let config = Config::from_values(None, None, None).unwrap();
    assert_eq!(config.data_directory, "/var/lib/emdrive/data");
    assert_eq!(config.tcp_listen_host, "127.0.0.1");
    assert_eq!(config.tcp_listen_port, 8824);
    let config = Config::from_values(Some("/tmp/x".into()), Some("0.0.0.0".into()), Some("80".into())).unwrap();
    assert_eq!(config.data_directory, "/tmp/x");
    assert_eq!(config.tcp_listen_port, 80);
    assert_eq!(
        get_env_cast_or("tcp_listen_port", Some("70000".into()), 1),
        Err("70000 is not a valid tcp_listen_port value!".to_string())
    );
    assert!(Config::from_values(None, None, Some("x".into())).is_err());
}

#[test]
fn functions_produce_values_of_their_type() {
    assert!(matches!(Function::Now.call(), DataInstanceRaw::Timestamp(t) if t > 1_500_000_000));
    assert!(matches!(Function::Ulid.call(), DataInstanceRaw::Uuid(u) if u != 0));
}
