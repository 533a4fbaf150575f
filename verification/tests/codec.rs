use rayon_logs::codec::{LoadError, RawLogs};
use rayon_logs::events::RawEvent;

fn sample_logs() -> RawLogs {
    RawLogs {
        thread_events: vec![
            vec![
                RawEvent::TaskStart(0, 10),
                RawEvent::SubgraphStart(0),
                RawEvent::Child(1),
                RawEvent::SubgraphEnd(0, 42),
                RawEvent::TaskEnd(20),
            ],
            vec![RawEvent::TaskStart(1, 25), RawEvent::TaskEnd(30)],
        ],
        labels: vec!["sort".to_string(), "é".to_string()],
    }
}

#[test]
fn event_bytes_are_little_endian() {
    let mut bytes = Vec::new();
    RawEvent::<usize>::TaskStart(1, 258).write_to(&mut bytes);
    assert_eq!(bytes, vec![2, 1, 0, 0, 0, 0, 0, 0, 0, 2, 1, 0, 0, 0, 0, 0, 0]);
    let mut bytes = Vec::new();
    RawEvent::<usize>::SubgraphEnd(3, 7).write_to(&mut bytes);
    assert_eq!(bytes[0], 6);
    assert_eq!(bytes.len(), 17);
}

#[test]
fn event_read_back() {
    let events = vec![
        RawEvent::TaskStart(5, 6),
        RawEvent::TaskEnd(9),
        RawEvent::Child(3),
        RawEvent::SubgraphStart(2),
        RawEvent::SubgraphEnd(2, 11),
    ];
    for e in events {
        let mut bytes = vec![0xff];
        e.write_to(&mut bytes);
        let (read, pos) = RawEvent::read_from(&bytes, 1).unwrap();
        assert_eq!(read, e);
        assert_eq!(pos, bytes.len());
    }
}

#[test]
fn read_invalid_discriminant() {
    let bytes = vec![9u8; 20];
    assert_eq!(RawEvent::read_from(&bytes, 0), Err(LoadError::InvalidDiscriminant));
}

#[test]
fn read_truncated_event() {
    let bytes = vec![3u8, 1, 2];
    assert_eq!(RawEvent::read_from(&bytes, 0), Err(LoadError::UnexpectedEof));
    assert_eq!(RawEvent::read_from(&bytes, 3), Err(LoadError::UnexpectedEof));
}

#[test]
fn logs_round_trip() {
    let logs = sample_logs();
    let mut bytes = Vec::new();
    logs.save(&mut bytes);
    let back = RawLogs::load(&bytes).unwrap();
    assert_eq!(back.labels, logs.labels);
    assert_eq!(back.thread_events, logs.thread_events);
}

#[test]
fn logs_layout() {
    let logs = RawLogs { thread_events: vec![vec![RawEvent::TaskEnd(1)]], labels: vec!["ab".to_string()] };
    let mut bytes = Vec::new();
    logs.save(&mut bytes);
    let expected: Vec<u8> = vec![
        1, 0, 0, 0, 0, 0, 0, 0, // one label
        2, 0, 0, 0, 0, 0, 0, 0, b'a', b'b', // of two bytes
        1, 0, 0, 0, 0, 0, 0, 0, // one thread
        1, 0, 0, 0, 0, 0, 0, 0, // with one event
        3, 1, 0, 0, 0, 0, 0, 0, 0,
    ];
    assert_eq!(bytes, expected);
}

#[test]
fn load_truncated_log() {
    let logs = sample_logs();
    let mut bytes = Vec::new();
    logs.save(&mut bytes);
    bytes.truncate(bytes.len() - 1);
    assert_eq!(RawLogs::load(&bytes).err(), Some(LoadError::UnexpectedEof));
    assert_eq!(RawLogs::load(&[]).err(), Some(LoadError::UnexpectedEof));
}

#[test]
fn load_invalid_utf8_label() {
    let bytes: Vec<u8> = vec![1, 0, 0, 0, 0, 0, 0, 0, 1, 0, 0, 0, 0, 0, 0, 0, 0xff, 0, 0, 0, 0, 0, 0, 0, 0];
    assert_eq!(RawLogs::load(&bytes).err(), Some(LoadError::InvalidUtf8));
}

#[test]
fn load_invalid_event_kind() {
    let bytes: Vec<u8> = vec![
        0, 0, 0, 0, 0, 0, 0, 0, 1, 0, 0, 0, 0, 0, 0, 0, 1, 0, 0, 0, 0, 0, 0, 0, 7, 0, 0, 0, 0, 0, 0, 0, 0,
    ];
    assert_eq!(RawLogs::load(&bytes).err(), Some(LoadError::InvalidDiscriminant));
}
