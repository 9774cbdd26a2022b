use mpl_experiments::acceptors::{
    build_channel_key_map, build_channel_u16_map, key_less, resolve_channel_name, resolve_letter_name,
    AutomatonAcceptorRef, ChannelKey, SpecChannel,
};
use mpl_experiments::error::ExperimentError;

fn message(e: ExperimentError) -> String {
    match e {
        ExperimentError::InvalidConfig(m) => m,
    }
}

fn text(s: &str) -> Option<SpecChannel> {
    Some(SpecChannel::Text(s.to_string()))
}

#[test]
fn channel_keys_sorted_numbers_before_names() {
    let letters = vec![text("b"), Some(SpecChannel::Int(7)), text("3"), text("a"), text("+7")];
    let (keys, idx) = build_channel_key_map(&letters).expect("key map");
    assert_eq!(keys.len(), 4);
    assert!(matches!(keys[0], ChannelKey::Numeric(3)));
    assert!(matches!(keys[1], ChannelKey::Numeric(7)));
    assert!(matches!(&keys[2], ChannelKey::Named(s) if s == "a"));
    assert!(matches!(&keys[3], ChannelKey::Named(s) if s == "b"));
    assert_eq!(idx, vec![3, 1, 0, 2, 1]);
    for w in keys.windows(2) {
        assert!(key_less(&w[0], &w[1]));
    }
}

#[test]
fn channel_key_map_errors() {
    let missing = vec![text("a"), None, text("")];
    let err = build_channel_key_map(&missing).err().expect("missing");
    assert_eq!(message(err), "InvalidSpecMissingChannel: missing channel on letter");
    let empty = vec![text("a"), text(""), None];
    let err = build_channel_key_map(&empty).err().expect("empty");
    assert_eq!(message(err), "InvalidSpecMissingChannel: empty channel on letter");
}

#[test]
fn channel_u16_map_values_and_errors() {
    let letters = vec![Some(SpecChannel::Int(5)), text("2"), text("5")];
    let (per_letter, ids) = build_channel_u16_map(&letters, "MISS", "NAN").expect("map");
    assert_eq!(per_letter, vec![5, 2, 5]);
    assert_eq!(ids, vec![2, 5]);
    let bad = vec![text("1"), text("x"), None];
    let err = build_channel_u16_map(&bad, "MISS", "NAN").err().expect("non numeric");
    assert_eq!(message(err), "NAN: non-numeric channel on letter 1");
    let bad = vec![text("1"), None, text("x")];
    let err = build_channel_u16_map(&bad, "MISS", "NAN").err().expect("missing");
    assert_eq!(message(err), "MISS: missing channel on letter 1");
    let big = vec![text("70000")];
    assert!(build_channel_u16_map(&big, "MISS", "NAN").is_err());
}

#[test]
fn resolve_names() {
    let letters = vec![text("x"), text("4")];
    let (keys, _) = build_channel_key_map(&letters).expect("map");
    assert_eq!(resolve_channel_name("4", Some(&keys), "UNK").expect("numeric"), 0);
    assert_eq!(resolve_channel_name("x", Some(&keys), "UNK").expect("named"), 1);
    assert_eq!(message(resolve_channel_name("y", Some(&keys), "UNK").err().unwrap()), "UNK: y");
    assert!(resolve_channel_name("x", None, "UNK").is_err());
    let table = vec![("a".to_string(), 3usize), ("b".to_string(), 1), ("a".to_string(), 9)];
    assert_eq!(resolve_letter_name("a", &table, "UNK").expect("a"), 3);
    assert_eq!(resolve_letter_name("b", &table, "UNK").expect("b"), 1);
    assert_eq!(message(resolve_letter_name("c", &table, "UNKNOWN_LETTER").err().unwrap()), "UNKNOWN_LETTER: c");
}

#[test]
fn acceptor_refs_compare() {
    assert_eq!(AutomatonAcceptorRef::KGram(1), AutomatonAcceptorRef::KGram(1));
    assert_ne!(AutomatonAcceptorRef::KGram(1), AutomatonAcceptorRef::Genealogical(1));
    assert_ne!(AutomatonAcceptorRef::ChannelPairs(0), AutomatonAcceptorRef::ChannelPairs(2));
}
