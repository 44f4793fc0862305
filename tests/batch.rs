use anime_dl::coordinator::{Action, Coordinator, FailReason, Item, ItemState};
use anime_dl::irc::parse_line;
use anime_dl::transfer::{add_chunk, bar_update, outcome_on_close, progress_value, reached_size, status_update, BarUpdate, StatusMarker, StatusUpdate};

fn items() -> Vec<Item> {
    vec![
        Item { bot: b"BotA".to_vec(), package: 1 },
        Item { bot: b"BotB".to_vec(), package: 2 },
        Item { bot: b"BotC".to_vec(), package: 3 },
    ]
}

fn offer_line(bot: &str, name: &str, size: u64) -> Vec<u8> {
    format!(":{}!x@host PRIVMSG me :\x01DCC SEND {} 2130706433 5000 {}\x01", bot, name, size).into_bytes()
}

fn closed(actions: &[Action]) -> Vec<usize> {
    actions.iter().filter_map(|a| match a {
        Action::Finished(k, _) => Some(*k),
        _ => None,
    }).collect()
}

#[test]
fn two_items_both_complete() {
    let (mut c, first) = Coordinator::new(items()[..2].to_vec(), b"me".to_vec(), 2);
    assert!(matches!(first.as_slice(), [Action::Request(0)]));
    let a = c.on_line(&parse_line(&offer_line("BotA", "a.mkv", 1000)));
    assert_eq!(a.len(), 2);
    match &a[0] {
        Action::StartTransfer(0, o) => assert_eq!(o.size, 1000),
        other => panic!("{:?}", other),
    }
    assert!(matches!(a[1], Action::Request(1)));
    let b = c.on_line(&parse_line(&offer_line("BotB", "b.mkv", 2000)));
    assert_eq!(b.len(), 1);
    match &b[0] {
        Action::StartTransfer(1, o) => assert_eq!(o.size, 2000),
        other => panic!("{:?}", other),
    }
    let e1 = c.on_transfer_end(1, outcome_on_close(2000, 2000));
    assert!(matches!(e1.as_slice(), [Action::Finished(1, ItemState::Completed)]));
    let e0 = c.on_transfer_end(0, outcome_on_close(1000, 1000));
    assert!(matches!(e0.as_slice(), [Action::Finished(0, ItemState::Completed), Action::AllDone]));
    assert!(c.on_transfer_end(0, ItemState::Completed).is_empty());
}

#[test]
fn silent_bot_times_out_and_the_rest_go_on() {
    let (mut c, _) = Coordinator::new(items(), b"me".to_vec(), 2);
    assert!(matches!(c.on_offer_timeout().as_slice(), [Action::Request(0)]));
    assert!(matches!(c.on_offer_timeout().as_slice(), [Action::Request(0)]));
    let a = c.on_offer_timeout();
    assert!(matches!(
        a.as_slice(),
        [Action::Finished(0, ItemState::Failed(FailReason::Timeout)), Action::Request(1)]
    ));
    let b = c.on_line(&parse_line(&offer_line("BotB", "b.mkv", 10)));
    assert!(matches!(b.as_slice(), [Action::StartTransfer(1, _), Action::Request(2)]));
}

#[test]
fn malformed_offer_then_timeout_is_a_bad_offer() {
    let (mut c, _) = Coordinator::new(items()[..1].to_vec(), b"me".to_vec(), 0);
    let bad = b":BotA!x@h PRIVMSG me :\x01DCC SEND a.mkv nope 1 2\x01".to_vec();
    assert!(c.on_line(&parse_line(&bad)).is_empty());
    let a = c.on_offer_timeout();
    assert!(matches!(
        a.as_slice(),
        [Action::Finished(0, ItemState::Failed(FailReason::BadOffer)), Action::AllDone]
    ));
}

#[test]
fn offers_from_other_bots_are_ignored() {
    let (mut c, _) = Coordinator::new(items(), b"me".to_vec(), 1);
    assert!(c.on_line(&parse_line(&offer_line("BotB", "b.mkv", 10))).is_empty());
    let to_other = b":BotA!x@h PRIVMSG you :\x01DCC SEND a.mkv 1 2 3\x01".to_vec();
    assert!(c.on_line(&parse_line(&to_other)).is_empty());
}

#[test]
fn requests_follow_item_order() {
    let (mut c, first) = Coordinator::new(items(), b"me".to_vec(), 1);
    let mut issued: Vec<usize> = vec![];
    let mut all = first;
    all.extend(c.on_offer_timeout());
    all.extend(c.on_line(&parse_line(&offer_line("BotA", "a.mkv", 5))));
    all.extend(c.on_offer_timeout());
    all.extend(c.on_offer_timeout());
    all.extend(c.on_line(&parse_line(&offer_line("BotC", "c.mkv", 5))));
    for a in &all {
        if let Action::Request(k) = a {
            issued.push(*k);
        }
    }
    assert_eq!(issued, vec![0, 0, 1, 1, 2]);
    assert_eq!(c.request_bytes(2), b"PRIVMSG BotC :xdcc send #3\r\n".to_vec());
}

#[test]
fn every_item_closes_once() {
    let (mut c, first) = Coordinator::new(items(), b"me".to_vec(), 0);
    let mut all = first;
    all.extend(c.on_line(&parse_line(&offer_line("BotA", "a.mkv", 5))));
    all.extend(c.on_offer_timeout());
    all.extend(c.on_transfer_end(0, ItemState::Failed(FailReason::IoError)));
    all.extend(c.on_session_lost());
    all.extend(c.on_session_lost());
    let mut ends = closed(&all);
    ends.sort();
    assert_eq!(ends, vec![0, 1, 2]);
    assert_eq!(all.iter().filter(|a| matches!(a, Action::AllDone)).count(), 1);
}

#[test]
fn empty_batch_is_done_at_once() {
    let (_, first) = Coordinator::new(vec![], b"me".to_vec(), 3);
    assert!(matches!(first.as_slice(), [Action::AllDone]));
}

#[test]
fn short_transfer_is_a_size_mismatch() {
    let mut got = 0u64;
    got = add_chunk(got, 200);
    got = add_chunk(got, 100);
    assert_eq!(got, 300);
    assert!(!reached_size(got, 500));
    assert_eq!(outcome_on_close(got, 500), ItemState::Failed(FailReason::SizeMismatch));
    assert_eq!(outcome_on_close(500, 500), ItemState::Completed);
    assert!(reached_size(500, 500));
    assert_eq!(add_chunk(u64::MAX - 1, 5), u64::MAX);
}

#[test]
fn progress_events() {
    assert_eq!(progress_value(300), 300);
    assert_eq!(progress_value(u64::MAX), i64::MAX);
    assert_eq!(bar_update(300), BarUpdate::Advance(300));
    assert_eq!(bar_update(0), BarUpdate::Finish);
    assert_eq!(bar_update(-1), BarUpdate::Finish);
    assert_eq!(status_update(StatusMarker::ItemFinished), StatusUpdate::Increment);
    assert_eq!(status_update(StatusMarker::AllDone), StatusUpdate::Finish);
    assert_eq!(status_update(StatusMarker::Waiting), StatusUpdate::Show);
}
