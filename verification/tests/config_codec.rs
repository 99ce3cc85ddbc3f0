use mnist_pipeline::config::{encode_config, parse_config, ConfigError, MnistTrainingConfig};

#[test]
fn default_values_match_the_documented_hyperparameters() {
    let c = MnistTrainingConfig::default();
    assert_eq!(c.num_epochs, 10);
    assert_eq!(c.batch_size, 128);
    assert_eq!(c.num_workers, 8);
    assert_eq!(c.seed, 42);
    assert_eq!(c.subset_size, 4096);
    assert_eq!(c.learning_rate_nano, 100000);
    assert_eq!(c.weight_decay_nano, 50000);
}

#[test]
fn encoding_is_the_canonical_json_record() {
    let c = MnistTrainingConfig::default();
    let bytes = encode_config(&c);
    let text = String::from_utf8(bytes).unwrap();
    assert_eq!(
        text,
        "{\"num_epochs\":10,\"batch_size\":128,\"num_workers\":8,\"seed\":42,\
         \"subset_size\":4096,\"learning_rate_nano\":100000,\"weight_decay_nano\":50000}"
    );
}

#[test]
fn round_trip_restores_every_field() {
    let configs = [
        MnistTrainingConfig::default(),
        MnistTrainingConfig {
            num_epochs: 1,
            batch_size: 1,
            num_workers: 0,
            seed: 0,
            subset_size: 0,
            learning_rate_nano: 0,
            weight_decay_nano: u64::MAX,
        },
        MnistTrainingConfig {
            num_epochs: 3,
            batch_size: 256,
            num_workers: 16,
            seed: u64::MAX,
            subset_size: 60000,
            learning_rate_nano: 1,
            weight_decay_nano: 0,
        },
    ];
    for c in configs.iter() {
        let bytes = encode_config(c);
        let reloaded = parse_config(&bytes).unwrap();
        assert_eq!(reloaded, *c);
    }
}

#[test]
fn malformed_records_are_rejected() {
    let cases: [&str; 8] = [
        "",
        "{}",
        "garbage",
        "{\"num_epochs\":10",
        // wrong field order
        "{\"batch_size\":128,\"num_epochs\":10,\"num_workers\":8,\"seed\":42,\
         \"subset_size\":4096,\"learning_rate_nano\":100000,\"weight_decay_nano\":50000}",
        // leading zero is not canonical
        "{\"num_epochs\":010,\"batch_size\":128,\"num_workers\":8,\"seed\":42,\
         \"subset_size\":4096,\"learning_rate_nano\":100000,\"weight_decay_nano\":50000}",
        // value past u64::MAX
        "{\"num_epochs\":99999999999999999999,\"batch_size\":128,\"num_workers\":8,\"seed\":42,\
         \"subset_size\":4096,\"learning_rate_nano\":100000,\"weight_decay_nano\":50000}",
        // trailing bytes
        "{\"num_epochs\":10,\"batch_size\":128,\"num_workers\":8,\"seed\":42,\
         \"subset_size\":4096,\"learning_rate_nano\":100000,\"weight_decay_nano\":50000} ",
    ];
    for text in cases.iter() {
        let bytes: Vec<u8> = text.bytes().collect();
        assert_eq!(parse_config(&bytes), Err(ConfigError::Malformed), "input: {}", text);
    }
}

#[test]
fn parsing_a_handwritten_canonical_record_works() {
    let text = "{\"num_epochs\":2,\"batch_size\":4,\"num_workers\":0,\"seed\":7,\
                \"subset_size\":12,\"learning_rate_nano\":5,\"weight_decay_nano\":6}";
    let bytes: Vec<u8> = text.bytes().collect();
    let c = parse_config(&bytes).unwrap();
    assert_eq!(c.num_epochs, 2);
    assert_eq!(c.batch_size, 4);
    assert_eq!(c.num_workers, 0);
    assert_eq!(c.seed, 7);
    assert_eq!(c.subset_size, 12);
    assert_eq!(c.learning_rate_nano, 5);
    assert_eq!(c.weight_decay_nano, 6);
}
