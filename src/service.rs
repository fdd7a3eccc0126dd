use vstd::prelude::*;

use crate::address::IpAddress;
use crate::codec::{
    decode_spec, hashed_as, opt_text_view, page_bytes, parse_message, u16_wire, ParseOutput,
    RequestView, Serialise,
};
use crate::query::all_wf;
use crate::database::{
    create, create_spec, delete, delete_spec, get, get_spec, modify, modify_spec, Database,
    DatabaseError, Lobby, Page, PAGE_SIZE,
};

verus! {

/// Status byte of a request that succeeded.
pub const SUCCESS: u8 = 10;

/// Status byte sent when no request arrived in time.
pub const TIMED_OUT: u8 = 101;

/// The status byte that reports an outcome of the directory.
pub open spec fn status_of(r: Result<(), DatabaseError>) -> u8 {
    match r {
        Ok(()) => SUCCESS,
        Err(e) => e.spec_code(),
    }
}

/// The outcome without the page.
pub open spec fn unit_of(r: Result<Option<Page>, DatabaseError>) -> Result<(), DatabaseError> {
    match r {
        Ok(_) => Ok(()),
        Err(e) => Err(e),
    }
}

/// A decoded request whose lobby, if any, can be stored.
pub open spec fn storable(request: ParseOutput) -> bool {
    match request {
        ParseOutput::Create(Some(l)) => l.wf(),
        ParseOutput::Modify(Some(l)) => l.wf(),
        _ => true,
    }
}

/// Carries out a decoded request: a page for a listing, nothing otherwise.
pub fn apply(db: &mut Database, request: ParseOutput) -> (r: Result<Option<Page>, DatabaseError>)
    requires
        old(db).wf(),
        storable(request),
    ensures
        final(db).wf(),
        match request {
            ParseOutput::Create(o) => (unit_of(r), final(db)@) == create_spec(old(db)@, o) && !(r matches Ok(Some(_))),
            ParseOutput::Modify(o) => (unit_of(r), final(db)@) == modify_spec(old(db)@, o) && !(r matches Ok(Some(_))),
            ParseOutput::Destroy((ip, port, pw)) => (unit_of(r), final(db)@) == delete_spec(old(db)@, ip@, port, opt_text_view(pw))
                && !(r matches Ok(Some(_))),
            ParseOutput::Get(g) => final(db)@ == old(db)@ && match get_spec(old(db)@, g@) {
                Err(e) => r == Err::<Option<Page>, DatabaseError>(e),
                Ok((lobbies, page, total)) => r matches Ok(Some(p)) && p.lobbies@ == lobbies && p.page_number == page
                    && p.total_pages == total,
            },
        },
        r matches Ok(Some(p)) ==> all_wf(p.lobbies@) && p.lobbies@.len() <= PAGE_SIZE,
{
    match request {
        ParseOutput::Create(o) => {
            create(db, o)?;
            Ok(None)
        },
        ParseOutput::Modify(o) => {
            modify(db, o)?;
            Ok(None)
        },
        ParseOutput::Destroy((ip, port, pw)) => {
            delete(db, ip, port, pw)?;
            Ok(None)
        },
        ParseOutput::Get(g) => {
            let page = get(db, g)?;
            Ok(Some(page))
        },
    }
}

/// The response to a request that the directory carried out with outcome `r`:
/// the status byte, and for a page its bytes behind a 16-bit length.
pub open spec fn response_of(r: Result<(), DatabaseError>, page: Option<Seq<u8>>) -> Seq<u8> {
    match page {
        Some(b) => seq![status_of(r)] + u16_wire(b.len() as u16) + b,
        None => seq![status_of(r)],
    }
}

/// A page of at most `PAGE_SIZE` writable lobbies takes less than 64 KiB.
proof fn lemma_page_fits(p: Page)
    requires
        all_wf(p.lobbies@),
        p.lobbies@.len() <= PAGE_SIZE,
    ensures
        page_bytes(p.lobbies@, p.page_number, p.total_pages).len() <= 65535,
{
    crate::codec::lemma_lobbies_wire_len(p.lobbies@);
}

/// Answers one message from the client at `sender`: decodes it, carries it out
/// against the directory and writes the response bytes.
pub fn handle_message(db: &mut Database, message: &[u8], sender: IpAddress) -> (r: Vec<u8>)
    requires
        old(db).wf(),
    ensures
        final(db).wf(),
        match decode_spec(message@, sender@) {
            Err(e) => r@ == seq![e.spec_code()] && final(db)@ == old(db)@,
            Ok(RequestView::Create(f)) => exists|o: Option<Lobby>| #[trigger] hashed_as(o, f) && ({
                let (res, t) = create_spec(old(db)@, o);
                final(db)@ == t && r@ == response_of(res, None)
            }),
            Ok(RequestView::Modify(f)) => exists|o: Option<Lobby>| #[trigger] hashed_as(o, f) && ({
                let (res, t) = modify_spec(old(db)@, o);
                final(db)@ == t && r@ == response_of(res, None)
            }),
            Ok(RequestView::Destroy(a, port, pw)) => {
                let (res, t) = delete_spec(old(db)@, a, port, pw);
                final(db)@ == t && r@ == response_of(res, None)
            },
            Ok(RequestView::Get(g)) => final(db)@ == old(db)@ && match get_spec(old(db)@, g) {
                Err(e) => r@ == seq![e.spec_code()],
                Ok((lobbies, page, total)) => r@ == response_of(Ok(()), Some(page_bytes(lobbies, page, total))),
            },
        },
{
    let parsed = match parse_message(message, sender) {
        Err(e) => {
            let mut out: Vec<u8> = Vec::new();
            out.push(e.code());
            return out;
        },
        Ok(p) => p,
    };
    let outcome = apply(db, parsed);
    let mut out: Vec<u8> = Vec::new();
    match outcome {
        Err(e) => {
            out.push(e.code());
        },
        Ok(None) => {
            out.push(SUCCESS);
        },
        Ok(Some(page)) => {
            proof {
                lemma_page_fits(page);
            }
            out.push(SUCCESS);
            let mut body = page.serialise();
            let mut len = (body.len() as u16).serialise();
            out.append(&mut len);
            out.append(&mut body);
        },
    }
    out
}

/// How long a connection may take to deliver its request, in milliseconds.
pub const RECV_TIME_OUT_MS: u64 = 5000;

/// What a connection does next while it waits for its request.
#[derive(Clone, Copy, Debug, PartialEq, Eq, Structural)]
pub enum ReceiveStep {
    /// The reader has finished: take its result.
    Collect,
    /// The deadline has passed: report the time-out and close the connection.
    GiveUp,
    /// Sleep a little and look again.
    Wait,
}

/// The next step of a connection waiting for its request, from whether the
/// reader has finished and how long it has been waiting.
pub fn receive_step(finished: bool, elapsed_ms: u64) -> (r: ReceiveStep)
    ensures
        r == (if finished {
            ReceiveStep::Collect
        } else if elapsed_ms > RECV_TIME_OUT_MS {
            ReceiveStep::GiveUp
        } else {
            ReceiveStep::Wait
        }),
{
    if finished {
        ReceiveStep::Collect
    } else if elapsed_ms > RECV_TIME_OUT_MS {
        ReceiveStep::GiveUp
    } else {
        ReceiveStep::Wait
    }
}

} // verus!
