//! What a connection of the thread-per-core proxy does with what its peers send, and
//! with their silence.

use vstd::prelude::*;
use vstd::utf8::encode_utf8;

use crate::lb_core::route_table::{table_route, Table};
use crate::proxy_monoio::http1::request_info;
use crate::proxy_monoio::http2::is_h2;
use crate::proxy_monoio::server::{
    client_got, looked, target_path, upstream_got, Act, Progress, Refusal,
};
use crate::text::nat_text;
use crate::wire::{request_read, response_read, RequestRead};

verus! {

/// The status of a refusal.
pub open spec fn status_for(r: Refusal) -> nat {
    match r {
        Refusal::BadRequest => 400,
        Refusal::NotFound => 404,
        Refusal::HeadTooLarge => 431,
        Refusal::BadGateway => 502,
    }
}

/// The words that go with it.
pub open spec fn words_for(r: Refusal) -> Seq<char> {
    match r {
        Refusal::BadRequest => "Bad Request"@,
        Refusal::NotFound => "Not Found"@,
        Refusal::HeadTooLarge => "Request Header Fields Too Large"@,
        Refusal::BadGateway => "Bad Gateway"@,
    }
}

/// A refusal says what was wrong, has no body, and announces that the connection closes.
pub proof fn lemma_refusals_say_what_was_wrong(r: Refusal)
    ensures
        r.response_of() == encode_utf8("HTTP/1.1 "@) + encode_utf8(nat_text(status_for(r)))
            + encode_utf8(" "@) + encode_utf8(words_for(r)) + encode_utf8(
            "\r\nContent-Length: 0\r\nConnection: close\r\n\r\n"@,
        ),
{
}

/// What has been read of a request decides what comes next: a preface on a new connection
/// goes to HTTP/2, one that may still become it is waited for, what is no request is
/// refused, what is not yet one is read on behind what is there until 64 kilobytes are
/// full, and one that no route takes is not found.
pub proof fn lemma_what_was_read_decides(
    p: Progress,
    cbuf: Seq<u8>,
    ubuf: Seq<u8>,
    table: Table,
    ticket: int,
)
    requires
        0 < p.filled <= cbuf.len(),
        cbuf.len() <= usize::MAX,
    ensures
        ({
            let t = looked(p, cbuf, ubuf, table, ticket);
            let b = cbuf.take(p.filled as int);
            let read = request_read(b, 96);
            &&& p.served == 0 && is_h2(b) == Some(true) <==> t.act == Act::UpgradeH2
            &&& p.served == 0 && is_h2(b) is None ==> (t.act matches Act::ReadClient { from, .. }
                && from == p.filled)
            &&& p.served > 0 || is_h2(b) == Some(false) ==> {
                &&& read is Invalid ==> t.act == Act::Refuse(Refusal::BadRequest)
                &&& read is Partial && p.filled >= 65_536 ==> t.act == Act::Refuse(
                    Refusal::HeadTooLarge,
                )
                &&& read is Partial && p.filled < 65_536 ==> (t.act matches Act::ReadClient {
                    from,
                    ..
                } && from == p.filled && t.at == p)
                &&& read matches RequestRead::Complete(fields) ==> {
                    &&& request_info(b, fields) is None ==> t.act == Act::Refuse(
                        Refusal::BadRequest,
                    )
                    &&& request_info(b, fields) matches Some(info) ==> {
                        let route = table_route(table, info.host, target_path(info.target), false);
                        &&& route is None ==> t.act == Act::Refuse(Refusal::NotFound)
                        &&& route is Some ==> t.act == Act::Acquire && t.at.served == p.served + 1
                    }
                }
            }
        }),
{
}

/// A client that closes between requests is let go, and one that closes with part of a
/// body outstanding breaks the exchange off.
pub proof fn lemma_client_that_closes_is_let_go(
    p: Progress,
    cbuf: Seq<u8>,
    ubuf: Seq<u8>,
    table: Table,
    ticket: int,
)
    ensures
        p.phase is Head ==> client_got(p, 0, cbuf, ubuf, table, ticket).act == Act::Close,
        !(p.phase is Head) && p.left is Exact ==> client_got(
            p,
            0,
            cbuf,
            ubuf,
            table,
            ticket,
        ).act == Act::Fail,
{
}

/// What an upstream sends before its head is whole is read on behind what is there; what
/// is no response is reported; silence ends the connection, and silence with part of a
/// body outstanding breaks the exchange off.
pub proof fn lemma_upstream_is_read_or_reported(p: Progress, n: nat, cbuf: Seq<u8>, ubuf: Seq<u8>)
    requires
        p.ufilled + n <= ubuf.len() <= usize::MAX,
    ensures
        ({
            let t = upstream_got(p, n, cbuf, ubuf);
            let read = response_read(ubuf.take((p.ufilled + n) as int), 96);
            &&& p.phase is ResponseHead && n == 0 ==> t.act == Act::Close
            &&& p.phase is ResponseHead && n > 0 && read is Invalid ==> t.act == Act::Refuse(
                Refusal::BadGateway,
            )
            &&& p.phase is ResponseHead && n > 0 && read is Partial ==> (t.act
                matches Act::ReadUpstream { from, .. } && from == p.ufilled + n)
            &&& p.phase is ResponseHead && n > 0 && read is Complete ==> t.act == Act::ReturnHead
            &&& !(p.phase is ResponseHead) && n == 0 && p.left is Exact ==> t.act == Act::Fail
            &&& !(p.phase is ResponseHead) && n > 0 ==> (t.act matches Act::WriteClient {
                from,
                to,
            } && from == 0 && to == n)
        }),
{
}

} // verus!
