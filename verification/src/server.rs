//! The server's side of an exchange: its options, and the answer to a
//! request once the command has run.
//!
//! The server reads a request on the connection that the client opened,
//! and delivers the answer on a connection of its own to the port where
//! the client listens. It never answers on the connection of the request.

use vstd::prelude::*;
use crate::packet::{NormanPacket, PacketView, RequestType, Status, terminator_text, placeholder_key};
use crate::text::{count_of_text, parse_count};

verus! {

/// The port on which the server listens for requests.
pub const REQUEST_PORT: u16 = 7878;

/// What the server was started with.
pub struct UserOptions {
    /// The number of worker threads to create.
    pub thread_count: usize,
}

/// What the options of the server are, by its arguments. The first
/// argument is the name of the program; the second is the thread count, a
/// decimal number that may have white space around it.
pub open spec fn server_options(args: Seq<Seq<char>>) -> Result<usize, Seq<char>> {
    if args.len() < 2 {
        Err(
            "No thread count provided. \n This is the number of threads the application should create"@,
        )
    } else {
        match count_of_text(args[1]) {
            Some(count) => Ok(count),
            None => Err("Thread count must be a number"@),
        }
    }
}

impl UserOptions {
    /// Reads the options from the arguments of the program.
    pub fn new(args: Vec<String>) -> (res: Result<UserOptions, &'static str>)
        ensures
            match res {
                Ok(options) => server_options(args.deep_view()) == Ok::<usize, Seq<char>>(
                    options.thread_count,
                ),
                Err(message) => server_options(args.deep_view()) == Err::<usize, Seq<char>>(
                    message@,
                ),
            },
    {
        if args.len() < 2 {
            return Err(
                "No thread count provided. \n This is the number of threads the application should create",
            );
        }
        assert(args.deep_view()[1] == args@[1]@);
        match parse_count(args[1].as_str()) {
            Some(thread_count) => Ok(UserOptions { thread_count }),
            None => Err("Thread count must be a number"),
        }
    }
}

/// The answer to a request whose command gave the output: a `RETURN`
/// packet with the status `FINE` and code 200 that carries the output and
/// takes version, return flag and service from the request.
pub open spec fn response_to(request: PacketView, output: Seq<char>) -> PacketView {
    PacketView {
        version: request.version,
        return_output: request.return_output,
        service: request.service,
        req_type: RequestType::RETURN,
        status: Status::FINE { code: 200 },
        uid: 0,
        encoding_type: "None"@,
        key: placeholder_key(),
        data: output,
        multi_packet: false,
        term_string: terminator_text(),
    }
}

/// Builds the answer to a request from the output of its command.
pub fn response(request: &NormanPacket, output: String) -> (answer: NormanPacket)
    ensures
        answer@ == response_to(request@, output@),
{
    NormanPacket::new(
        request.header.version.clone(),
        request.header.return_output,
        request.header.service,
        RequestType::RETURN,
        Status::FINE { code: 200 },
        String::from_str("None"),
        output,
        false,
    )
}

} // verus!
