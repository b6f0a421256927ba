//! Finding the J-Link library, connecting, and reading.

use memory_monitor::jlink::{
    link_description, read_result, search_library, Connection, LinkCall, LinkReply, SearchStep,
    Stage,
};

fn reply(code: i32) -> LinkReply {
    LinkReply { code, text: None }
}

fn says(text: &str) -> LinkReply {
    LinkReply { code: 0, text: Some(text.to_string()) }
}

#[test]
fn the_default_places_are_tried_in_turn() {
    let mut failures: Vec<String> = Vec::new();
    for path in [
        "libjlinkarm.so",
        "/opt/SEGGER/JLink/libjlinkarm.so",
        "/usr/lib/x86_64-linux-gnu/libjlinkarm.so",
    ] {
        match search_library(None, &failures) {
            SearchStep::Load(p) => assert_eq!(p, path),
            step => panic!("{step:?}"),
        }
        failures.push(format!("no {path}"));
    }
    match search_library(None, &failures) {
        SearchStep::GiveUp(text, None) => assert_eq!(
            text,
            "could not load libjlinkarm.so (tried defaults; last: \
             /usr/lib/x86_64-linux-gnu/libjlinkarm.so: \
             no /usr/lib/x86_64-linux-gnu/libjlinkarm.so). Pass --lib /path/to/libjlinkarm.so"
        ),
        step => panic!("{step:?}"),
    }
}

#[test]
fn a_given_library_is_the_only_one_tried() {
    match search_library(Some("/tmp/x.so"), &Vec::new()) {
        SearchStep::Load(p) => assert_eq!(p, "/tmp/x.so"),
        step => panic!("{step:?}"),
    }
    match search_library(Some("/tmp/x.so"), &vec!["not there".to_string()]) {
        SearchStep::GiveUp(text, Some(cause)) => {
            assert_eq!(text, "loading J-Link library from /tmp/x.so");
            assert_eq!(cause, "not there");
        }
        step => panic!("{step:?}"),
    }
}

#[test]
fn a_connection_makes_its_calls_in_order() {
    let mut c = Connection::new("nRF52840_xxAA", 4000, Some(683_000_001));
    let mut calls = Vec::new();
    loop {
        match c.next_call() {
            None => break,
            Some(call) => calls.push(format!("{call:?}")),
        }
        assert_eq!(c.take_reply(reply(0)), Ok(()));
    }
    assert_eq!(
        calls,
        [
            "SelectByUsbSn(683000001)",
            "OpenEx",
            "ExecCommand(\"device = nRF52840_xxAA\")",
            "TifSelect(1)",
            "SetSpeed(4000)",
            "Connect",
        ]
    );
    assert_eq!(c.stage, Stage::Ready);
    assert_eq!(c.take_reply(reply(-1)), Ok(()));
}

#[test]
fn without_a_serial_number_any_probe_will_do() {
    let c = Connection::new("d", 1, None);
    assert!(matches!(c.next_call(), Some(LinkCall::OpenEx)));
}

fn at(stage: Stage) -> Connection {
    let mut c = Connection::new("chip", 1000, Some(7));
    c.stage = stage;
    c
}

#[test]
fn failures_are_told() {
    let failure = |stage: Stage, r: LinkReply| {
        let mut c = at(stage);
        let text = match c.take_reply(r) {
            Ok(()) => panic!("{stage:?}"),
            Err(text) => text,
        };
        assert_eq!(c.stage, stage);
        text
    };
    assert_eq!(
        failure(Stage::SelectProbe, reply(-5)),
        "JLINKARM_EMU_SelectByUSBSN(7) failed with rc=-5"
    );
    assert_eq!(failure(Stage::Open, says("no probe")), "JLINKARM_OpenEx failed: no probe");
    assert_eq!(failure(Stage::Open, says("")), "JLINKARM_OpenEx failed: ");
    assert_eq!(
        failure(Stage::SetDevice, says("unknown device")),
        "J-Link command `device = chip` reported: unknown device"
    );
    assert_eq!(
        failure(Stage::SelectInterface, reply(-1)),
        "JLINKARM_TIF_Select(SWD) failed with rc=-1"
    );
    assert_eq!(
        failure(Stage::Connect, reply(1)),
        "JLINKARM_Connect failed with rc=1 (check wiring/power/device name)"
    );
    assert_eq!(
        failure(Stage::Connect, reply(i32::MIN)),
        "JLINKARM_Connect failed with rc=-2147483648 (check wiring/power/device name)"
    );
}

#[test]
fn answers_that_are_no_failures() {
    let next = |stage: Stage, r: LinkReply| {
        let mut c = at(stage);
        assert_eq!(c.take_reply(r), Ok(()));
        c.stage
    };
    assert_eq!(next(Stage::SelectProbe, reply(3)), Stage::Open);
    assert_eq!(next(Stage::SetDevice, says("")), Stage::SelectInterface);
    assert_eq!(next(Stage::SelectInterface, reply(1)), Stage::SetSpeed);
    assert_eq!(next(Stage::SetSpeed, reply(-9)), Stage::Connect);
    assert_eq!(next(Stage::Connect, reply(0)), Stage::Ready);
}

#[test]
fn reads_fail_with_negative_codes() {
    assert_eq!(read_result(0x2000_0000, 64, 0), Ok(()));
    assert_eq!(read_result(0x2000_0000, 64, 64), Ok(()));
    assert_eq!(
        read_result(0x00AB_0000, 320, -256),
        Err("JLINKARM_ReadMem(0x00AB0000, 320) failed with rc=-256".to_string())
    );
}

#[test]
fn the_link_is_described() {
    assert_eq!(
        link_description("nRF52840_xxAA", 4000, 1),
        "J-Link nRF52840_xxAA @ 4000 kHz [connected]"
    );
    assert_eq!(
        link_description("nRF52840_xxAA", 4000, 0),
        "J-Link nRF52840_xxAA @ 4000 kHz [DISCONNECTED]"
    );
}
