use vstd::prelude::*;
use crate::bytes::{append_bytes, bytes_eq, copy_range, cut, cut_at};
use crate::decimal::{decimal, push_decimal};

verus! {

pub open spec fn crlf() -> Seq<u8> {
    seq![13u8, 10u8]
}

/// `NICK <nick>\r\n`
pub open spec fn nick_line(nick: Seq<u8>) -> Seq<u8> {
    seq![78u8, 73u8, 67u8, 75u8, 32u8] + nick + crlf()
}

/// `USER <nick> 0 * :<nick>\r\n`
pub open spec fn user_line(nick: Seq<u8>) -> Seq<u8> {
    seq![85u8, 83u8, 69u8, 82u8, 32u8] + nick + seq![32u8, 48u8, 32u8, 42u8, 32u8, 58u8] + nick
        + crlf()
}

/// `JOIN #<channel>\r\n`
pub open spec fn join_line(channel: Seq<u8>) -> Seq<u8> {
    seq![74u8, 79u8, 73u8, 78u8, 32u8, 35u8] + channel + crlf()
}

/// `PONG <token>\r\n`
pub open spec fn pong_line(token: Seq<u8>) -> Seq<u8> {
    seq![80u8, 79u8, 78u8, 71u8, 32u8] + token + crlf()
}

/// `PRIVMSG <bot> :xdcc send #<package>\r\n`
pub open spec fn request_line(bot: Seq<u8>, package: nat) -> Seq<u8> {
    seq![80u8, 82u8, 73u8, 86u8, 77u8, 83u8, 71u8, 32u8] + bot + seq![
        32u8,
        58u8,
        120u8,
        100u8,
        99u8,
        99u8,
        32u8,
        115u8,
        101u8,
        110u8,
        100u8,
        32u8,
        35u8,
    ] + decimal(package) + crlf()
}

fn push_crlf(out: &mut Vec<u8>)
    ensures
        final(out)@ == old(out)@ + crlf(),
{
    out.push(13u8);
    out.push(10u8);
    assert(final(out)@ =~= old(out)@ + crlf());
}

/// The registration lines, NICK then USER, for `nick`.
pub fn encode_registration(nick: &[u8]) -> (r: Vec<u8>)
    ensures
        r@ == nick_line(nick@) + user_line(nick@),
{
    let mut r: Vec<u8> = vec![78u8, 73u8, 67u8, 75u8, 32u8];
    append_bytes(&mut r, nick);
    push_crlf(&mut r);
    let u: Vec<u8> = vec![85u8, 83u8, 69u8, 82u8, 32u8];
    append_bytes(&mut r, u.as_slice());
    append_bytes(&mut r, nick);
    let mode: Vec<u8> = vec![32u8, 48u8, 32u8, 42u8, 32u8, 58u8];
    append_bytes(&mut r, mode.as_slice());
    append_bytes(&mut r, nick);
    push_crlf(&mut r);
    assert(r@ =~= nick_line(nick@) + user_line(nick@));
    r
}

/// The line that joins `#<channel>`.
pub fn encode_join(channel: &[u8]) -> (r: Vec<u8>)
    ensures
        r@ == join_line(channel@),
{
    let mut r: Vec<u8> = vec![74u8, 79u8, 73u8, 78u8, 32u8, 35u8];
    append_bytes(&mut r, channel);
    push_crlf(&mut r);
    assert(r@ =~= join_line(channel@));
    r
}

/// The answer to a PING that carried `token`.
pub fn encode_pong(token: &[u8]) -> (r: Vec<u8>)
    ensures
        r@ == pong_line(token@),
{
    let mut r: Vec<u8> = vec![80u8, 79u8, 78u8, 71u8, 32u8];
    append_bytes(&mut r, token);
    push_crlf(&mut r);
    assert(r@ =~= pong_line(token@));
    r
}

/// The message that asks `bot` to send package number `package`.
pub fn encode_request(bot: &[u8], package: u64) -> (r: Vec<u8>)
    ensures
        r@ == request_line(bot@, package as nat),
{
    let mut r: Vec<u8> = vec![80u8, 82u8, 73u8, 86u8, 77u8, 83u8, 71u8, 32u8];
    append_bytes(&mut r, bot);
    let cmd: Vec<u8> = vec![32u8, 58u8, 120u8, 100u8, 99u8, 99u8, 32u8, 115u8, 101u8, 110u8, 100u8, 32u8, 35u8];
    append_bytes(&mut r, cmd.as_slice());
    push_decimal(&mut r, package);
    push_crlf(&mut r);
    assert(r@ =~= request_line(bot@, package as nat));
    r
}

/// One received line, without its line end: the prefix (without its `:`),
/// the command, and the rest of the line.
pub struct IrcLine {
    pub prefix: Vec<u8>,
    pub command: Vec<u8>,
    pub args: Vec<u8>,
}

pub open spec fn line_prefix_rest(s: Seq<u8>) -> (Seq<u8>, Seq<u8>) {
    if s.len() > 0 && s[0] == 58u8 {
        cut(s.subrange(1, s.len() as int), 32u8)
    } else {
        (Seq::empty(), s)
    }
}

/// Prefix, command and arguments of a line.
pub open spec fn line_parts(s: Seq<u8>) -> (Seq<u8>, Seq<u8>, Seq<u8>) {
    let (prefix, rest) = line_prefix_rest(s);
    let (command, args) = cut(rest, 32u8);
    (prefix, command, args)
}

/// Splits a received line into prefix, command and arguments.
pub fn parse_line(s: &[u8]) -> (r: IrcLine)
    ensures
        (r.prefix@, r.command@, r.args@) == line_parts(s@),
{
    let (prefix, rest) = if s.len() > 0 && s[0] == 58u8 {
        let body = copy_range(s, 1, s.len());
        cut_at(body.as_slice(), 32u8)
    } else {
        (Vec::new(), copy_range(s, 0, s.len()))
    };
    proof {
        assert(s@.subrange(0, s@.len() as int) =~= s@);
        assert((prefix@, rest@) == line_prefix_rest(s@));
    }
    let (command, args) = cut_at(rest.as_slice(), 32u8);
    IrcLine { prefix, command, args }
}

/// The nickname in a prefix `nick!user@host`.
pub open spec fn prefix_nick(prefix: Seq<u8>) -> Seq<u8> {
    cut(prefix, 33u8).0
}

/// The target of a PRIVMSG or NOTICE, and its text without the leading `:`.
pub open spec fn message_target_text(args: Seq<u8>) -> (Seq<u8>, Seq<u8>) {
    let (target, tail) = cut(args, 32u8);
    if tail.len() > 0 && tail[0] == 58u8 {
        (target, tail.subrange(1, tail.len() as int))
    } else {
        (target, tail)
    }
}

pub open spec fn cmd_privmsg() -> Seq<u8> {
    seq![80u8, 82u8, 73u8, 86u8, 77u8, 83u8, 71u8]
}

pub open spec fn cmd_notice() -> Seq<u8> {
    seq![78u8, 79u8, 84u8, 73u8, 67u8, 69u8]
}

pub open spec fn cmd_ping() -> Seq<u8> {
    seq![80u8, 73u8, 78u8, 71u8]
}

pub open spec fn cmd_error() -> Seq<u8> {
    seq![69u8, 82u8, 82u8, 79u8, 82u8]
}

/// Numeric reply 001: registration is complete.
pub open spec fn cmd_welcome() -> Seq<u8> {
    seq![48u8, 48u8, 49u8]
}

/// Numeric reply 433: the nickname is in use.
pub open spec fn cmd_nick_in_use() -> Seq<u8> {
    seq![52u8, 51u8, 51u8]
}

/// The text of a PRIVMSG or NOTICE sent by `from` to `to`, if `line` is one.
pub open spec fn direct_text(line: (Seq<u8>, Seq<u8>, Seq<u8>), from: Seq<u8>, to: Seq<u8>) -> Option<Seq<u8>> {
    let (target, text) = message_target_text(line.2);
    if (line.1 == cmd_privmsg() || line.1 == cmd_notice()) && prefix_nick(line.0) == from && target == to {
        Some(text)
    } else {
        None
    }
}

pub fn is_command(line: &IrcLine, name: &Vec<u8>) -> (r: bool)
    ensures
        r == (line.command@ == name@),
{
    bytes_eq(line.command.as_slice(), name.as_slice())
}

/// The text of `line` when it is a PRIVMSG or NOTICE from `from` to `to`.
pub fn direct_text_of(line: &IrcLine, from: &[u8], to: &[u8]) -> (r: Option<Vec<u8>>)
    ensures
        match r {
            Some(t) => direct_text((line.prefix@, line.command@, line.args@), from@, to@) == Some(t@),
            None => direct_text((line.prefix@, line.command@, line.args@), from@, to@) is None,
        },
{
    let privmsg: Vec<u8> = vec![80u8, 82u8, 73u8, 86u8, 77u8, 83u8, 71u8];
    let notice: Vec<u8> = vec![78u8, 79u8, 84u8, 73u8, 67u8, 69u8];
    assert(privmsg@ =~= cmd_privmsg());
    assert(notice@ =~= cmd_notice());
    if !is_command(line, &privmsg) && !is_command(line, &notice) {
        return None;
    }
    let (nick, _) = cut_at(line.prefix.as_slice(), 33u8);
    if !bytes_eq(nick.as_slice(), from) {
        return None;
    }
    let (target, tail) = cut_at(line.args.as_slice(), 32u8);
    if !bytes_eq(target.as_slice(), to) {
        return None;
    }
    if tail.len() > 0 && tail[0] == 58u8 {
        Some(copy_range(tail.as_slice(), 1, tail.len()))
    } else {
        Some(tail)
    }
}

} // verus!
