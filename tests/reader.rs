use smart_crest::config::Config;
use smart_crest::reader::{notifier, CardReader, Step};
use smart_crest::response::{
    extract_identifier, fill_placeholder, identifier_token, identify_command, MalformedResponse,
};
use smart_crest::state::{card_arrived, reader_gone, CHANGED, EMPTY, IGNORE, PRESENT, UNKNOWN};

const ARRIVED: u64 = CHANGED | PRESENT;

fn names(list: &[&str]) -> Vec<Vec<u8>> {
    list.iter().map(|n| n.as_bytes().to_vec()).collect()
}

fn reader_names(r: &CardReader) -> Vec<Vec<u8>> {
    (0..r.reader_count()).map(|i| r.reader_name(i).clone()).collect()
}

#[test]
fn trailer_is_stripped() {
    let raw = vec![0xDE, 0xAD, 0xBE, 0xEF, 0x90, 0x00];
    assert_eq!(extract_identifier(&raw), Ok(vec![0xDE, 0xAD, 0xBE, 0xEF]));
}

#[test]
fn bare_trailer_gives_empty_identifier() {
    assert_eq!(extract_identifier(&vec![0x90, 0x00]), Ok(vec![]));
}

#[test]
fn short_response_is_malformed() {
    assert_eq!(extract_identifier(&vec![0x90]), Err(MalformedResponse { len: 1 }));
    assert_eq!(extract_identifier(&vec![]), Err(MalformedResponse { len: 0 }));
}

#[test]
fn identify_command_bytes() {
    assert_eq!(identify_command(), vec![0xFF, 0xCA, 0x00, 0x00, 0x00]);
}

#[test]
fn token_is_lowercase_hex() {
    assert_eq!(identifier_token(&vec![0xDE, 0xAD, 0x0B, 0x01]), "dead0b01");
    assert_eq!(identifier_token(&vec![]), "");
}

#[test]
fn placeholder_is_filled_everywhere() {
    assert_eq!(fill_placeholder("http://h/{}/x{}", "ab"), "http://h/ab/xab");
    assert_eq!(fill_placeholder("{{}}", "ab"), "{ab}");
    assert_eq!(fill_placeholder("no placeholder {", "ab"), "no placeholder {");
    assert_eq!(fill_placeholder("", "ab"), "");
}

#[test]
fn url_for_malformed_response() {
    let conf = Config { endpoint: "https://example.com/card/{}".to_string() };
    assert_eq!(conf.url_for(&vec![0x90]), Err(MalformedResponse { len: 1 }));
}

#[test]
fn state_classification() {
    assert!(card_arrived(CHANGED | PRESENT));
    assert!(card_arrived(CHANGED | PRESENT | 0x100));
    assert!(!card_arrived(PRESENT));
    assert!(!card_arrived(CHANGED | EMPTY));
    assert!(reader_gone(UNKNOWN));
    assert!(reader_gone(IGNORE | CHANGED));
    assert!(!reader_gone(CHANGED | EMPTY));
}

#[test]
fn new_watches_only_the_notifier() {
    let r = CardReader::new();
    assert_eq!(r.reader_count(), 1);
    assert_eq!(r.reader_name(0), &b"\\\\?PnP?\\Notification".to_vec());
    assert_eq!(notifier(), b"\\\\?PnP?\\Notification".to_vec());
    assert_eq!(r.current_state(0), 0);
    assert_eq!(r.queued(), 0);
}

#[test]
fn refresh_twice_adds_nothing_new() {
    let mut r = CardReader::new();
    let added = r.refresh(&names(&["A", "B"]));
    assert_eq!(added, names(&["A", "B"]));
    let before = reader_names(&r);
    let again = r.refresh(&names(&["A", "B"]));
    assert!(again.is_empty());
    assert_eq!(reader_names(&r), before);
    assert_eq!(r.reader_count(), 3);
}

#[test]
fn refresh_skips_duplicates_in_one_listing() {
    let mut r = CardReader::new();
    let added = r.refresh(&names(&["A", "A", "B"]));
    assert_eq!(added, names(&["A", "B"]));
    assert_eq!(r.reader_count(), 3);
}

#[test]
fn unknown_reader_is_removed_until_listed_again() {
    let mut r = CardReader::new();
    r.refresh(&names(&["A", "B"]));
    let removed = r.observe(&vec![0, ARRIVED, UNKNOWN | CHANGED]);
    assert_eq!(removed, names(&["B"]));
    assert_eq!(reader_names(&r)[1..].to_vec(), names(&["A"]));
    assert_eq!(r.current_state(1), ARRIVED);
    assert!(r.refresh(&names(&["A"])).is_empty());
    assert_eq!(r.reader_count(), 2);
    assert_eq!(r.refresh(&names(&["A", "B"])), names(&["B"]));
    assert_eq!(r.reader_count(), 3);
}

#[test]
fn notifier_is_never_pruned_nor_read() {
    let mut r = CardReader::new();
    r.refresh(&names(&["A"]));
    let removed = r.observe(&vec![UNKNOWN | IGNORE | ARRIVED, ARRIVED]);
    assert!(removed.is_empty());
    assert_eq!(r.reader_name(0), &notifier());
    assert_eq!(r.arrivals(), names(&["A"]));
}

#[test]
fn arrivals_are_read_in_reader_order_and_delivered_fifo() {
    let mut r = CardReader::new();
    r.refresh(&names(&["A", "B", "C", "D"]));
    r.observe(&vec![CHANGED, ARRIVED, CHANGED | EMPTY, ARRIVED, ARRIVED]);
    assert_eq!(r.arrivals(), names(&["A", "C", "D"]));
    r.record_reads(&vec![Some(vec![1, 0x90, 0]), Some(vec![2, 0x90, 0]), Some(vec![3, 0x90, 0])]);
    assert_eq!(r.queued(), 3);
    assert_eq!(r.next_step(), Step::Deliver(vec![1, 0x90, 0]));
    assert_eq!(r.next_step(), Step::Deliver(vec![2, 0x90, 0]));
    assert_eq!(r.next_step(), Step::Deliver(vec![3, 0x90, 0]));
    assert_eq!(r.next_step(), Step::Poll);
}

#[test]
fn failed_read_does_not_block_others() {
    let mut r = CardReader::new();
    r.refresh(&names(&["A", "B"]));
    r.observe(&vec![0, ARRIVED, ARRIVED]);
    assert_eq!(r.arrivals(), names(&["A", "B"]));
    r.record_reads(&vec![None, Some(vec![7, 0x90, 0])]);
    assert_eq!(r.next_step(), Step::Deliver(vec![7, 0x90, 0]));
    assert_eq!(r.next_step(), Step::Poll);
}

#[test]
fn fresh_reader_set_asks_for_a_poll() {
    let mut r = CardReader::new();
    assert_eq!(r.next_step(), Step::Poll);
    assert_eq!(r.reader_count(), 1);
}

#[test]
fn unchanged_states_read_nothing() {
    let mut r = CardReader::new();
    r.refresh(&names(&["A"]));
    r.observe(&vec![0, PRESENT]);
    assert!(r.arrivals().is_empty());
    assert_eq!(r.next_step(), Step::Poll);
}

#[test]
fn card_read_end_to_end() {
    let mut r = CardReader::new();
    r.refresh(&names(&["Reader 0"]));
    r.observe(&vec![CHANGED, ARRIVED]);
    assert_eq!(r.arrivals(), names(&["Reader 0"]));
    r.record_reads(&vec![Some(vec![0x01, 0x02, 0x03, 0x04, 0x90, 0x00])]);
    let raw = match r.next_step() {
        Step::Deliver(raw) => raw,
        Step::Poll => panic!("a response was queued"),
    };
    assert_eq!(extract_identifier(&raw), Ok(vec![0x01, 0x02, 0x03, 0x04]));
    let conf = Config { endpoint: "https://example.com/card/{}".to_string() };
    assert_eq!(conf.url_for(&raw), Ok("https://example.com/card/01020304".to_string()));
    assert_eq!(r.next_step(), Step::Poll);
}

#[test]
fn enumeration_gap_keeps_reader() {
    let mut r = CardReader::new();
    r.refresh(&names(&["A", "B"]));
    assert!(r.refresh(&names(&["B"])).is_empty());
    let removed = r.observe(&vec![0, CHANGED | EMPTY, PRESENT]);
    assert!(removed.is_empty());
    assert_eq!(reader_names(&r)[1..].to_vec(), names(&["A", "B"]));
}

#[test]
fn arrivals_list_each_reader_once() {
    let mut r = CardReader::new();
    r.refresh(&names(&["A", "B", "A"]));
    r.observe(&vec![ARRIVED, ARRIVED, ARRIVED]);
    assert_eq!(r.arrivals(), names(&["A", "B"]));
}
