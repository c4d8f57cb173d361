//! The client's side of an exchange: its options and the request it sends.
//!
//! The client sends its request on a connection to the server and then
//! listens on a port of its own, where the server delivers the answer.

use vstd::prelude::*;
use crate::packet::{
    NormanPacket, PacketView, RequestType, Service, Status, placeholder_key, terminator_text,
};

verus! {

/// The port on which the client listens for the answer.
pub const RESPONSE_PORT: u16 = 7575;

/// The host that requests go to.
pub struct Target {
    pub ip: String,
    pub port: String,
}

/// What the client was started with.
pub struct UserOptions {
    pub target: Target,
}

/// What the options of the client are, by its arguments: the address and
/// the port of the target. The first argument is the name of the program;
/// the second is the address, the third the port.
pub open spec fn client_options(args: Seq<Seq<char>>) -> Result<(Seq<char>, Seq<char>), Seq<char>> {
    if args.len() < 2 {
        Err("No ip provided. \n Syntax: norman <ip> <port>"@)
    } else if args.len() < 3 {
        Err("No port provided \n Syntax: norman <ip> <port>"@)
    } else {
        Ok((args[1], args[2]))
    }
}

impl Target {
    /// The address to connect to: the host, a colon, the port.
    pub fn address(&self) -> (address: String)
        ensures
            address@ == self.ip@ + ":"@ + self.port@,
    {
        let mut address = self.ip.clone();
        address.append(":");
        address.append(self.port.as_str());
        address
    }
}

impl UserOptions {
    /// Reads the options from the arguments of the program.
    pub fn new(args: Vec<String>) -> (res: Result<UserOptions, &'static str>)
        ensures
            match res {
                Ok(options) => client_options(args.deep_view()) == Ok::<
                    (Seq<char>, Seq<char>),
                    Seq<char>,
                >((options.target.ip@, options.target.port@)),
                Err(message) => client_options(args.deep_view()) == Err::<
                    (Seq<char>, Seq<char>),
                    Seq<char>,
                >(message@),
            },
    {
        if args.len() < 2 {
            return Err("No ip provided. \n Syntax: norman <ip> <port>");
        }
        if args.len() < 3 {
            return Err("No port provided \n Syntax: norman <ip> <port>");
        }
        assert(args.deep_view()[1] == args@[1]@);
        assert(args.deep_view()[2] == args@[2]@);
        let target = Target { ip: args[1].clone(), port: args[2].clone() };
        Ok(UserOptions { target })
    }
}

/// The request that asks for a shell command to be run and its output to
/// be delivered back.
pub open spec fn request_for(command: Seq<char>) -> PacketView {
    PacketView {
        version: "NORMAN/0.1"@,
        return_output: true,
        service: Service::SHELL,
        req_type: RequestType::REQUEST,
        status: Status::FINE { code: 200 },
        uid: 0,
        encoding_type: "None"@,
        key: placeholder_key(),
        data: command,
        multi_packet: false,
        term_string: terminator_text(),
    }
}

/// Builds the request for a shell command.
pub fn request(command: String) -> (packet: NormanPacket)
    ensures
        packet@ == request_for(command@),
{
    NormanPacket::new(
        String::from_str("NORMAN/0.1"),
        true,
        Service::SHELL,
        RequestType::REQUEST,
        Status::FINE { code: 200 },
        String::from_str("None"),
        command,
        false,
    )
}

} // verus!
