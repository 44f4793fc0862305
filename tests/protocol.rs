use anime_dl::codec::{decode_dcc_send, encode_dcc_send, DccOffer, ProtocolError};
use anime_dl::decimal::{parse_decimal, to_decimal};
use anime_dl::irc::{direct_text_of, encode_join, encode_pong, encode_registration, encode_request, parse_line};
use anime_dl::session::{session_step, SessionPhase};

fn offer(name: &str, ip: u32, port: u16, size: u64) -> DccOffer {
    DccOffer { filename: name.as_bytes().to_vec(), ip, port, size }
}

#[test]
fn dcc_offer_round_trip() {
    for o in [
        offer("show.mkv", 2130706433, 5000, 1000),
        offer("a", 0, 0, 0),
        offer("[Group]_Title_-_01_[720p].mkv", u32::MAX, u16::MAX, u64::MAX),
    ] {
        let bytes = encode_dcc_send(&o);
        let back = decode_dcc_send(&bytes).unwrap();
        assert_eq!(back.filename, o.filename);
        assert_eq!(back.ip, o.ip);
        assert_eq!(back.port, o.port);
        assert_eq!(back.size, o.size);
    }
}

#[test]
fn dcc_offer_encoding_is_exact() {
    let bytes = encode_dcc_send(&offer("ep.mkv", 3232235777, 6000, 2000));
    assert_eq!(bytes, b"\x01DCC SEND ep.mkv 3232235777 6000 2000\x01".to_vec());
}

#[test]
fn malformed_offers_are_rejected() {
    let bad: [&[u8]; 8] = [
        b"",
        b"\x01DCC SEND ep.mkv 1 2\x01",
        b"\x01DCC SEND ep.mkv 1 2 3",
        b"\x01DCC SEND ep.mkv 4294967296 2 3\x01",
        b"\x01DCC SEND ep.mkv 1 65536 3\x01",
        b"\x01DCC SEND ep.mkv 01 2 3\x01",
        b"\x01DCC SEND  1 2 3\x01",
        b"\x01DCC SEND ep.mkv 1 2 x\x01",
    ];
    for p in bad {
        assert!(matches!(decode_dcc_send(p), Err(ProtocolError::MalformedOffer)));
    }
}

#[test]
fn decimal_numbers() {
    assert_eq!(to_decimal(0), b"0".to_vec());
    assert_eq!(to_decimal(1234), b"1234".to_vec());
    assert_eq!(parse_decimal(b"18446744073709551615"), Some(u64::MAX));
    assert_eq!(parse_decimal(b"18446744073709551616"), None);
    assert_eq!(parse_decimal(b"007"), None);
    assert_eq!(parse_decimal(b""), None);
}

#[test]
fn control_lines() {
    assert_eq!(encode_registration(b"me"), b"NICK me\r\nUSER me 0 * :me\r\n".to_vec());
    assert_eq!(encode_join(b"nibl"), b"JOIN #nibl\r\n".to_vec());
    assert_eq!(encode_pong(b":abc"), b"PONG :abc\r\n".to_vec());
    assert_eq!(encode_request(b"Bot", 42), b"PRIVMSG Bot :xdcc send #42\r\n".to_vec());
}

#[test]
fn line_parts_and_direct_text() {
    let l = parse_line(b":Bot!b@host PRIVMSG me :hello there");
    assert_eq!(l.prefix, b"Bot!b@host".to_vec());
    assert_eq!(l.command, b"PRIVMSG".to_vec());
    assert_eq!(l.args, b"me :hello there".to_vec());
    assert_eq!(direct_text_of(&l, b"Bot", b"me"), Some(b"hello there".to_vec()));
    assert_eq!(direct_text_of(&l, b"Other", b"me"), None);
    assert_eq!(direct_text_of(&l, b"Bot", b"you"), None);
    let ping = parse_line(b"PING :server");
    assert_eq!(ping.prefix, Vec::<u8>::new());
    assert_eq!(ping.command, b"PING".to_vec());
}

#[test]
fn session_registration() {
    let ping = parse_line(b"PING :tok");
    let s = session_step(SessionPhase::Registering, &ping, b"nibl");
    assert_eq!(s.phase, SessionPhase::Registering);
    assert_eq!(s.reply, Some(b"PONG :tok\r\n".to_vec()));
    assert!(!s.forward);

    let welcome = parse_line(b":server 001 me :Welcome");
    let s = session_step(SessionPhase::Registering, &welcome, b"nibl");
    assert_eq!(s.phase, SessionPhase::Ready);
    assert_eq!(s.reply, Some(b"JOIN #nibl\r\n".to_vec()));

    let in_use = parse_line(b":server 433 * me :Nickname is already in use");
    assert_eq!(session_step(SessionPhase::Registering, &in_use, b"nibl").phase, SessionPhase::Failed);

    let msg = parse_line(b":Bot!b@h NOTICE me :hi");
    let s = session_step(SessionPhase::Ready, &msg, b"nibl");
    assert_eq!(s.phase, SessionPhase::Ready);
    assert!(s.forward);
    assert_eq!(s.reply, None);

    let err = parse_line(b"ERROR :Closing link");
    assert_eq!(session_step(SessionPhase::Ready, &err, b"nibl").phase, SessionPhase::Failed);
}
