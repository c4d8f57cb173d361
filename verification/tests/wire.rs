use norman::packet::{NormanPacket, ParseError, RequestType, Service, Status};

fn sample(service: Service, req_type: RequestType, status: Status) -> NormanPacket {
    NormanPacket::new(
        "NORMAN/0.1".to_string(),
        true,
        service,
        req_type,
        status,
        "None".to_string(),
        "ls -l".to_string(),
        false,
    )
}

fn wire_with(position: usize, token: &str) -> String {
    let mut tokens = vec![
        "NORMAN/0.1", "true", "SHELL", "REQUEST", "200 OK", "0", "None", " ", "ls", "false",
        "NORMAN/END",
    ];
    tokens[position] = token;
    tokens.join("|")
}

#[test]
fn new_sets_the_fixed_fields() {
    let packet = sample(Service::DOCKER, RequestType::TEST, Status::TEST { code: 100 });
    assert_eq!(packet.header.version, "NORMAN/0.1");
    assert!(packet.header.return_output);
    assert_eq!(packet.header.service, Service::DOCKER);
    assert_eq!(packet.meta.req_type, RequestType::TEST);
    assert_eq!(packet.meta.status, Status::TEST { code: 100 });
    assert_eq!(packet.meta.uid, 0);
    assert_eq!(packet.encryption.encoding_type, "None");
    assert_eq!(packet.encryption.key, " ");
    assert_eq!(packet.data.data, "ls -l");
    assert!(!packet.terminator.multi_packet);
    assert_eq!(packet.terminator.term_string, "NORMAN/END");
}

#[test]
fn every_canonical_packet_survives_the_round_trip() {
    let services = [Service::SHELL, Service::DOCKER, Service::AWS, Service::UNKNOWN];
    let types = [RequestType::REQUEST, RequestType::RETURN, RequestType::TEST, RequestType::ERROR];
    let statuses = [
        Status::FINE { code: 200 },
        Status::ERROR { code: 500 },
        Status::TEST { code: 100 },
        Status::MALFORMED { code: 505 },
    ];
    for service in services.iter() {
        for req_type in types.iter() {
            for status in statuses.iter() {
                for flags in 0..4 {
                    let packet = NormanPacket::new(
                        "NORMAN/0.1".to_string(),
                        flags & 1 == 1,
                        *service,
                        *req_type,
                        *status,
                        "None".to_string(),
                        "uname -a".to_string(),
                        flags & 2 == 2,
                    );
                    let wire = packet.as_string();
                    assert_eq!(NormanPacket::decode(&wire), Ok(packet.clone()));
                    assert_eq!(NormanPacket::from_string(wire), packet);
                }
            }
        }
    }
}

#[test]
fn the_wire_names_of_services_types_and_statuses() {
    assert_eq!(Service::SHELL.name(), "SHELL");
    assert_eq!(Service::DOCKER.name(), "DOCKER");
    assert_eq!(Service::AWS.name(), "AWS");
    assert_eq!(Service::UNKNOWN.name(), "UNKNOWN");
    assert_eq!(RequestType::REQUEST.name(), "REQUEST");
    assert_eq!(RequestType::RETURN.name(), "RETURN");
    assert_eq!(RequestType::TEST.name(), "TEST");
    assert_eq!(RequestType::ERROR.name(), "ERROR");
    assert_eq!(Status::FINE { code: 200 }.name(), "200 OK");
    assert_eq!(Status::ERROR { code: 500 }.name(), "500 ERR");
    assert_eq!(Status::TEST { code: 100 }.name(), "100 TEST");
    assert_eq!(Status::MALFORMED { code: 505 }.name(), "505 MALFORMED");
    assert_eq!(Status::MALFORMED { code: 505 }.code(), 505);
    assert_eq!(Status::FINE { code: -7 }.code(), -7);
}

#[test]
fn an_unknown_status_code_collapses_to_malformed() {
    for code in [0, 1, 99, 101, 199, 201, 404, 499, 501, 505, 699, -200, i32::MAX, i32::MIN] {
        for status in [
            Status::FINE { code },
            Status::ERROR { code },
            Status::TEST { code },
            Status::MALFORMED { code },
        ] {
            let packet = sample(Service::SHELL, RequestType::REQUEST, status);
            let wire = packet.as_string();
            assert_eq!(wire, "NORMAN/0.1|true|SHELL|REQUEST|505 MALFORMED|0|None| |ls -l|false|NORMAN/END");
            let back = NormanPacket::decode(&wire).unwrap();
            assert_eq!(back.meta.status, Status::MALFORMED { code: 505 });
        }
    }
}

#[test]
fn the_status_text_goes_by_the_code() {
    assert_eq!(Status::MALFORMED { code: 200 }.name(), "200 OK");
    assert_eq!(Status::FINE { code: 500 }.name(), "500 ERR");
    assert_eq!(Status::ERROR { code: 100 }.name(), "100 TEST");
    let packet = sample(Service::SHELL, RequestType::RETURN, Status::FINE { code: 500 });
    let back = NormanPacket::decode(&packet.as_string()).unwrap();
    assert_eq!(back.meta.status, Status::ERROR { code: 500 });
}

#[test]
fn the_identifier_is_written_in_decimal() {
    let mut packet = sample(Service::SHELL, RequestType::REQUEST, Status::FINE { code: 200 });
    packet.meta.uid = 42;
    assert_eq!(packet.as_string(), "NORMAN/0.1|true|SHELL|REQUEST|200 OK|42|None| |ls -l|false|NORMAN/END");
    packet.meta.uid = i32::MIN;
    assert_eq!(
        packet.as_string(),
        "NORMAN/0.1|true|SHELL|REQUEST|200 OK|-2147483648|None| |ls -l|false|NORMAN/END"
    );
    packet.meta.uid = i32::MAX;
    assert_eq!(
        packet.as_string(),
        "NORMAN/0.1|true|SHELL|REQUEST|200 OK|2147483647|None| |ls -l|false|NORMAN/END"
    );
    assert_eq!(NormanPacket::decode(&packet.as_string()).unwrap().meta.uid, 0);
}

#[test]
fn an_unrecognised_return_flag_reads_as_true() {
    for token in ["yes", "", "TRUE", "False", "0", "true "] {
        let packet = NormanPacket::decode(&wire_with(1, token)).unwrap();
        assert!(packet.header.return_output);
    }
    assert!(!NormanPacket::decode(&wire_with(1, "false")).unwrap().header.return_output);
    assert!(NormanPacket::decode(&wire_with(1, "true")).unwrap().header.return_output);
}

#[test]
fn an_unrecognised_service_reads_as_unknown() {
    for token in ["shell", "", "K8S", "SHELL ", "UNKNOWN"] {
        let packet = NormanPacket::decode(&wire_with(2, token)).unwrap();
        assert_eq!(packet.header.service, Service::UNKNOWN);
    }
    assert_eq!(NormanPacket::decode(&wire_with(2, "AWS")).unwrap().header.service, Service::AWS);
    assert_eq!(
        NormanPacket::decode(&wire_with(2, "DOCKER")).unwrap().header.service,
        Service::DOCKER
    );
    assert_eq!(Service::from_name("SHELL"), Service::SHELL);
}

#[test]
fn an_unrecognised_request_type_reads_as_error() {
    for token in ["request", "", "PING", "ERROR"] {
        let packet = NormanPacket::decode(&wire_with(3, token)).unwrap();
        assert_eq!(packet.meta.req_type, RequestType::ERROR);
    }
    assert_eq!(
        NormanPacket::decode(&wire_with(3, "RETURN")).unwrap().meta.req_type,
        RequestType::RETURN
    );
    assert_eq!(RequestType::from_name("TEST"), RequestType::TEST);
    assert_eq!(RequestType::from_name("REQUEST"), RequestType::REQUEST);
}

#[test]
fn an_unrecognised_status_reads_as_malformed() {
    for token in ["200", "OK", "", "404 NOT FOUND", "200 ok", "505 MALFORMED"] {
        let packet = NormanPacket::decode(&wire_with(4, token)).unwrap();
        assert_eq!(packet.meta.status, Status::MALFORMED { code: 505 });
    }
    assert_eq!(Status::from_name("200 OK"), Status::FINE { code: 200 });
    assert_eq!(Status::from_name("500 ERR"), Status::ERROR { code: 500 });
    assert_eq!(Status::from_name("100 TEST"), Status::TEST { code: 100 });
}

#[test]
fn an_unrecognised_multi_packet_flag_reads_as_false() {
    for token in ["yes", "", "TRUE", "1"] {
        let packet = NormanPacket::decode(&wire_with(9, token)).unwrap();
        assert!(!packet.terminator.multi_packet);
    }
    assert!(NormanPacket::decode(&wire_with(9, "true")).unwrap().terminator.multi_packet);
}

#[test]
fn version_encoding_key_and_data_pass_through() {
    let wire = "v9||SHELL|REQUEST|200 OK|0|base64|secret|echo \"a b\" > /dev/null|false|NORMAN/END";
    let packet = NormanPacket::decode(wire).unwrap();
    assert_eq!(packet.header.version, "v9");
    assert_eq!(packet.encryption.encoding_type, "base64");
    assert_eq!(packet.encryption.key, "secret");
    assert_eq!(packet.data.data, "echo \"a b\" > /dev/null");
    assert_eq!(packet.as_string(), "v9|true|SHELL|REQUEST|200 OK|0|base64|secret|echo \"a b\" > /dev/null|false|NORMAN/END");
}

#[test]
fn identifier_and_terminator_fields_are_not_read() {
    let wire = "NORMAN/0.1|true|SHELL|REQUEST|200 OK|77|None| |ls|false|whatever\0\0";
    let packet = NormanPacket::decode(wire).unwrap();
    assert_eq!(packet.meta.uid, 0);
    assert_eq!(packet.terminator.term_string, "NORMAN/END");
    let empty = NormanPacket::decode("||||||||||").unwrap();
    assert_eq!(empty.header.version, "");
    assert!(empty.header.return_output);
    assert_eq!(empty.header.service, Service::UNKNOWN);
    assert_eq!(empty.meta.req_type, RequestType::ERROR);
    assert_eq!(empty.meta.status, Status::MALFORMED { code: 505 });
    assert_eq!(empty.encryption.key, "");
    assert_eq!(empty.data.data, "");
    assert!(!empty.terminator.multi_packet);
}

#[test]
fn any_other_number_of_fields_is_refused() {
    assert_eq!(
        NormanPacket::decode(""),
        Err(ParseError::FieldCountMismatch {
            expected: 11,
            actual: 1,
            remainder: ",".to_string()
        })
    );
    assert_eq!(
        NormanPacket::decode("a|b|c"),
        Err(ParseError::FieldCountMismatch {
            expected: 11,
            actual: 3,
            remainder: "a,b,c,".to_string()
        })
    );
    assert_eq!(
        NormanPacket::decode("|||||||||"),
        Err(ParseError::FieldCountMismatch {
            expected: 11,
            actual: 10,
            remainder: ",,,,,,,,,,".to_string()
        })
    );
    assert_eq!(
        NormanPacket::decode("|||||||||||"),
        Err(ParseError::FieldCountMismatch {
            expected: 11,
            actual: 12,
            remainder: ",,,,,,,,,,,,".to_string()
        })
    );
    for pipes in 0..30 {
        let wire = "x|".repeat(pipes);
        assert_eq!(NormanPacket::decode(&wire).is_err(), pipes + 1 != 11);
    }
}

#[test]
fn a_separator_in_the_data_breaks_the_frame() {
    let packet = NormanPacket::new(
        "NORMAN/0.1".to_string(),
        true,
        Service::SHELL,
        RequestType::REQUEST,
        Status::FINE { code: 200 },
        "None".to_string(),
        "ps aux | grep norman".to_string(),
        false,
    );
    let wire = packet.as_string();
    assert_eq!(
        NormanPacket::decode(&wire),
        Err(ParseError::FieldCountMismatch {
            expected: 11,
            actual: 12,
            remainder: "NORMAN/0.1,true,SHELL,REQUEST,200 OK,0,None, ,ps aux , grep norman,false,NORMAN/END,"
                .to_string()
        })
    );
}

#[test]
fn text_outside_ascii_passes_through() {
    let packet = NormanPacket::new(
        "NORMAN/0.1".to_string(),
        false,
        Service::AWS,
        RequestType::RETURN,
        Status::FINE { code: 200 },
        "Keine".to_string(),
        "gr\u{fc}\u{df}e \u{4e16}\u{754c} \u{1f600}".to_string(),
        true,
    );
    let wire = packet.as_string();
    assert_eq!(
        wire,
        "NORMAN/0.1|false|AWS|RETURN|200 OK|0|Keine| |gr\u{fc}\u{df}e \u{4e16}\u{754c} \u{1f600}|true|NORMAN/END"
    );
    assert_eq!(NormanPacket::from_string(wire), packet);
}
