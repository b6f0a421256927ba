//! The decisions on the way to a target behind a SEGGER J-Link: which library to load, which calls
//! to make and what their answers mean. The calls themselves are made elsewhere.

use crate::text::{
    decimal, format_decimal, format_hex, format_signed, hex, signed_decimal,
};
use vstd::prelude::*;

verus! {

/// The interface number for SWD in the J-Link library.
pub const INTERFACE_SWD: i32 = 1;

// ---------------------------------------------------------------------------
// Finding the library
// ---------------------------------------------------------------------------

/// The search paths for the J-Link shared library on Linux, when none is given.
pub open spec fn default_libraries() -> Seq<Seq<char>> {
    seq![
        "libjlinkarm.so"@,
        "/opt/SEGGER/JLink/libjlinkarm.so"@,
        "/usr/lib/x86_64-linux-gnu/libjlinkarm.so"@,
    ]
}

/// The next step in looking for the library.
#[derive(Debug)]
pub enum SearchStep {
    /// Try to load the library at this path.
    Load(String),
    /// Give up, with this message; the loader's own error is said separately where it has to be.
    GiveUp(String, Option<String>),
}

/// The same, with texts as characters.
pub enum SearchStepModel {
    Load(Seq<char>),
    GiveUp(Seq<char>, Option<Seq<char>>),
}

impl View for SearchStep {
    type V = SearchStepModel;

    open spec fn view(&self) -> SearchStepModel {
        match self {
            SearchStep::Load(path) => SearchStepModel::Load(path@),
            SearchStep::GiveUp(text, cause) => SearchStepModel::GiveUp(
                text@,
                match cause {
                    Some(c) => Some(c@),
                    None => None,
                },
            ),
        }
    }
}

/// The next step when a load failed with each of the errors `failures` so far. A given path is the
/// only one that is tried; without one, the default paths are tried in turn.
pub open spec fn search(given: Option<Seq<char>>, failures: Seq<Seq<char>>) -> SearchStepModel {
    match given {
        Some(path) => if failures.len() == 0 {
            SearchStepModel::Load(path)
        } else {
            SearchStepModel::GiveUp(
                "loading J-Link library from "@ + path,
                Some(failures.last()),
            )
        },
        None => if failures.len() < default_libraries().len() {
            SearchStepModel::Load(default_libraries()[failures.len() as int])
        } else {
            SearchStepModel::GiveUp(
                "could not load libjlinkarm.so (tried defaults; last: "@ + default_libraries().last()
                    + ": "@ + failures.last() + "). Pass --lib /path/to/libjlinkarm.so"@,
                None,
            )
        },
    }
}

/// Default search path number `i`.
fn default_library(i: usize) -> (path: &'static str)
    requires
        i < 3,
    ensures
        path@ == default_libraries()[i as int],
{
    if i == 0 {
        "libjlinkarm.so"
    } else if i == 1 {
        "/opt/SEGGER/JLink/libjlinkarm.so"
    } else {
        "/usr/lib/x86_64-linux-gnu/libjlinkarm.so"
    }
}

/// What to do next to find the library, after the loads that failed with `failures`.
pub fn search_library(given: Option<&str>, failures: &Vec<String>) -> (step: SearchStep)
    ensures
        step@ == search(
            match given {
                Some(path) => Some(path@),
                None => None,
            },
            failures@.map_values(|s: String| s@),
        ),
{
    let n: usize = failures.len();
    match given {
        Some(path) => {
            if n == 0 {
                SearchStep::Load(path.to_owned())
            } else {
                let mut text: String = "loading J-Link library from ".to_owned();
                text.append(path);
                SearchStep::GiveUp(text, Some(failures[n - 1].clone()))
            }
        },
        None => {
            if n < 3 {
                SearchStep::Load(default_library(n).to_owned())
            } else {
                let mut text: String =
                    "could not load libjlinkarm.so (tried defaults; last: ".to_owned();
                text.append(default_library(2));
                text.append(": ");
                text.append(failures[n - 1].as_str());
                text.append("). Pass --lib /path/to/libjlinkarm.so");
                SearchStep::GiveUp(text, None)
            }
        },
    }
}

// ---------------------------------------------------------------------------
// Connecting
// ---------------------------------------------------------------------------

/// How far a connection has come: what is to be done next.
#[derive(Clone, Copy, Debug, PartialEq, Eq, Structural)]
pub enum Stage {
    /// Pin a specific probe by its serial number.
    SelectProbe,
    /// Open the probe.
    Open,
    /// Name the device.
    SetDevice,
    /// Select the target interface.
    SelectInterface,
    /// Set the interface speed.
    SetSpeed,
    /// Connect to the target.
    Connect,
    /// Nothing: the connection stands.
    Ready,
}

/// A call into the J-Link library.
#[derive(Debug)]
pub enum LinkCall {
    /// `JLINKARM_EMU_SelectByUSBSN` with a serial number.
    SelectByUsbSn(u32),
    /// `JLINKARM_OpenEx`.
    OpenEx,
    /// `JLINKARM_ExecCommand` with a command.
    ExecCommand(String),
    /// `JLINKARM_TIF_Select` with an interface number.
    TifSelect(i32),
    /// `JLINKARM_SetSpeed` with a speed in kHz.
    SetSpeed(u32),
    /// `JLINKARM_Connect`.
    Connect,
}

/// The same, with texts as characters.
pub enum LinkCallModel {
    SelectByUsbSn(u32),
    OpenEx,
    ExecCommand(Seq<char>),
    TifSelect(i32),
    SetSpeed(u32),
    Connect,
}

impl View for LinkCall {
    type V = LinkCallModel;

    open spec fn view(&self) -> LinkCallModel {
        match self {
            LinkCall::SelectByUsbSn(sn) => LinkCallModel::SelectByUsbSn(*sn),
            LinkCall::OpenEx => LinkCallModel::OpenEx,
            LinkCall::ExecCommand(cmd) => LinkCallModel::ExecCommand(cmd@),
            LinkCall::TifSelect(i) => LinkCallModel::TifSelect(*i),
            LinkCall::SetSpeed(khz) => LinkCallModel::SetSpeed(*khz),
            LinkCall::Connect => LinkCallModel::Connect,
        }
    }
}

/// What a call gave back: its return code, 0 where it has none, and the text that it left, if it
/// left one.
#[derive(Debug)]
pub struct LinkReply {
    pub code: i32,
    pub text: Option<String>,
}

/// A connection that is being made.
#[derive(Debug)]
pub struct Connection {
    pub device: String,
    pub speed_khz: u32,
    pub serial: u32,
    pub stage: Stage,
}

/// A connection that is being made, with the device's name as characters.
pub struct ConnectionModel {
    pub device: Seq<char>,
    pub speed_khz: u32,
    pub serial: u32,
    pub stage: Stage,
}

impl View for Connection {
    type V = ConnectionModel;

    open spec fn view(&self) -> ConnectionModel {
        ConnectionModel {
            device: self.device@,
            speed_khz: self.speed_khz,
            serial: self.serial,
            stage: self.stage,
        }
    }
}

/// The message about a call that failed with a code.
pub open spec fn failed_call_text(call: Seq<char>, code: int) -> Seq<char> {
    call + " failed with rc="@ + signed_decimal(code)
}

impl ConnectionModel {
    /// The command that names the device.
    pub open spec fn device_command(self) -> Seq<char> {
        "device = "@ + self.device
    }

    /// The call to make next.
    pub open spec fn next_call(self) -> Option<LinkCallModel> {
        match self.stage {
            Stage::SelectProbe => Some(LinkCallModel::SelectByUsbSn(self.serial)),
            Stage::Open => Some(LinkCallModel::OpenEx),
            Stage::SetDevice => Some(LinkCallModel::ExecCommand(self.device_command())),
            Stage::SelectInterface => Some(LinkCallModel::TifSelect(INTERFACE_SWD)),
            Stage::SetSpeed => Some(LinkCallModel::SetSpeed(self.speed_khz)),
            Stage::Connect => Some(LinkCallModel::Connect),
            Stage::Ready => None,
        }
    }

    /// The stage that a call's answer leads to, or the message about its failure.
    pub open spec fn after_reply(self, code: int, text: Option<Seq<char>>) -> Result<
        Stage,
        Seq<char>,
    > {
        match self.stage {
            Stage::SelectProbe => if code < 0 {
                Err(
                    failed_call_text(
                        "JLINKARM_EMU_SelectByUSBSN("@ + decimal(self.serial as nat) + ")"@,
                        code,
                    ),
                )
            } else {
                Ok(Stage::Open)
            },
            // No text means success.
            Stage::Open => match text {
                Some(msg) => Err("JLINKARM_OpenEx failed: "@ + msg),
                None => Ok(Stage::SetDevice),
            },
            Stage::SetDevice => match text {
                Some(msg) => if msg.len() > 0 {
                    Err("J-Link command `"@ + self.device_command() + "` reported: "@ + msg)
                } else {
                    Ok(Stage::SelectInterface)
                },
                None => Ok(Stage::SelectInterface),
            },
            // The code is the interface that was selected before; one that is not negative is fine.
            Stage::SelectInterface => if code < 0 {
                Err(failed_call_text("JLINKARM_TIF_Select(SWD)"@, code))
            } else {
                Ok(Stage::SetSpeed)
            },
            Stage::SetSpeed => Ok(Stage::Connect),
            Stage::Connect => if code != 0 {
                Err(
                    failed_call_text("JLINKARM_Connect"@, code)
                        + " (check wiring/power/device name)"@,
                )
            } else {
                Ok(Stage::Ready)
            },
            Stage::Ready => Ok(Stage::Ready),
        }
    }
}

fn failed_call(call: &str, code: i32) -> (text: String)
    ensures
        text@ == failed_call_text(call@, code as int),
{
    let mut text: String = call.to_owned();
    text.append(" failed with rc=");
    text.append(format_signed(code as i64).as_str());
    text
}

impl Connection {
    /// A connection to `device` at `speed_khz`, through the probe with the given serial number or
    /// through any. Nothing has been done yet.
    pub fn new(device: &str, speed_khz: u32, serial: Option<u32>) -> (c: Connection)
        ensures
            c@.device == device@,
            c@.speed_khz == speed_khz,
            match serial {
                Some(sn) => c@.serial == sn && c@.stage == Stage::SelectProbe,
                None => c@.serial == 0 && c@.stage == Stage::Open,
            },
    {
        match serial {
            Some(sn) => Connection {
                device: device.to_owned(),
                speed_khz,
                serial: sn,
                stage: Stage::SelectProbe,
            },
            None => Connection {
                device: device.to_owned(),
                speed_khz,
                serial: 0,
                stage: Stage::Open,
            },
        }
    }

    fn command(&self) -> (cmd: String)
        ensures
            cmd@ == self@.device_command(),
    {
        let mut cmd: String = "device = ".to_owned();
        cmd.append(self.device.as_str());
        cmd
    }

    /// The call to make next, or none when the connection stands.
    pub fn next_call(&self) -> (call: Option<LinkCall>)
        ensures
            match call {
                Some(c) => self@.next_call() == Some(c@),
                None => self@.next_call() is None,
            },
    {
        match self.stage {
            Stage::SelectProbe => Some(LinkCall::SelectByUsbSn(self.serial)),
            Stage::Open => Some(LinkCall::OpenEx),
            Stage::SetDevice => Some(LinkCall::ExecCommand(self.command())),
            Stage::SelectInterface => Some(LinkCall::TifSelect(INTERFACE_SWD)),
            Stage::SetSpeed => Some(LinkCall::SetSpeed(self.speed_khz)),
            Stage::Connect => Some(LinkCall::Connect),
            Stage::Ready => None,
        }
    }

    /// Takes in the answer to the call that was due: goes on to the next stage, or says what failed
    /// and stays.
    pub fn take_reply(&mut self, reply: LinkReply) -> (r: Result<(), String>)
        ensures
            match old(self)@.after_reply(
                reply.code as int,
                match reply.text {
                    Some(t) => Some(t@),
                    None => None,
                },
            ) {
                Ok(stage) => r is Ok && final(self)@ == (ConnectionModel { stage, ..old(self)@ }),
                Err(text) => r matches Err(e) && e@ == text && final(self)@ == old(self)@,
            },
    {
        match self.stage {
            Stage::SelectProbe => {
                if reply.code < 0 {
                    let mut call: String = "JLINKARM_EMU_SelectByUSBSN(".to_owned();
                    call.append(format_decimal(self.serial as u128).as_str());
                    call.append(")");
                    return Err(failed_call(call.as_str(), reply.code));
                }
                self.stage = Stage::Open;
            },
            Stage::Open => {
                match reply.text {
                    Some(msg) => {
                        let mut text: String = "JLINKARM_OpenEx failed: ".to_owned();
                        text.append(msg.as_str());
                        return Err(text);
                    },
                    None => {},
                }
                self.stage = Stage::SetDevice;
            },
            Stage::SetDevice => {
                match reply.text {
                    Some(msg) => {
                        if !msg.as_str().is_empty() {
                            let mut text: String = "J-Link command `".to_owned();
                            text.append(self.command().as_str());
                            text.append("` reported: ");
                            text.append(msg.as_str());
                            return Err(text);
                        }
                    },
                    None => {},
                }
                self.stage = Stage::SelectInterface;
            },
            Stage::SelectInterface => {
                if reply.code < 0 {
                    return Err(failed_call("JLINKARM_TIF_Select(SWD)", reply.code));
                }
                self.stage = Stage::SetSpeed;
            },
            Stage::SetSpeed => {
                self.stage = Stage::Connect;
            },
            Stage::Connect => {
                if reply.code != 0 {
                    let mut text: String = failed_call("JLINKARM_Connect", reply.code);
                    text.append(" (check wiring/power/device name)");
                    return Err(text);
                }
                self.stage = Stage::Ready;
            },
            Stage::Ready => {},
        }
        Ok(())
    }
}

// ---------------------------------------------------------------------------
// Reading
// ---------------------------------------------------------------------------

/// What the code of `JLINKARM_ReadMem` means for a read of `n` bytes at `addr`.
pub fn read_result(addr: u32, n: u32, code: i32) -> (r: Result<(), String>)
    ensures
        code >= 0 <==> r is Ok,
        r matches Err(text) ==> text@ == failed_call_text(
            "JLINKARM_ReadMem(0x"@ + hex(addr as nat, 8) + ", "@ + decimal(n as nat) + ")"@,
            code as int,
        ),
{
    if code < 0 {
        let mut call: String = "JLINKARM_ReadMem(0x".to_owned();
        call.append(format_hex(addr as u64, 8).as_str());
        call.append(", ");
        call.append(format_decimal(n as u128).as_str());
        call.append(")");
        Err(failed_call(call.as_str(), code))
    } else {
        Ok(())
    }
}

/// The description of a connection, by the code of `JLINKARM_IsConnected`.
pub fn link_description(device: &str, speed_khz: u32, code: i32) -> (text: String)
    ensures
        text@ == "J-Link "@ + device@ + " @ "@ + decimal(speed_khz as nat) + " kHz ["@ + (if code
            != 0 {
            "connected"@
        } else {
            "DISCONNECTED"@
        }) + "]"@,
{
    let mut text: String = "J-Link ".to_owned();
    text.append(device);
    text.append(" @ ");
    text.append(format_decimal(speed_khz as u128).as_str());
    text.append(" kHz [");
    if code != 0 {
        text.append("connected");
    } else {
        text.append("DISCONNECTED");
    }
    text.append("]");
    text
}

// ---------------------------------------------------------------------------
// Laws
// ---------------------------------------------------------------------------

/// How many calls are still to be made.
pub open spec fn calls_left(stage: Stage) -> nat {
    match stage {
        Stage::SelectProbe => 6,
        Stage::Open => 5,
        Stage::SetDevice => 4,
        Stage::SelectInterface => 3,
        Stage::SetSpeed => 2,
        Stage::Connect => 1,
        Stage::Ready => 0,
    }
}

/// A connection stands when `JLINKARM_Connect` has answered with 0, and not before.
pub proof fn lemma_ready_means_connected(c: ConnectionModel, code: int, text: Option<Seq<char>>)
    requires
        c.stage != Stage::Ready,
    ensures
        c.after_reply(code, text) == Ok::<Stage, Seq<char>>(Stage::Ready) <==> c.next_call() == Some(
            LinkCallModel::Connect,
        ) && code == 0,
{
}

/// Each answer either ends the attempt or leaves one call fewer to be made, and there is a call to
/// make until none is left: a connection comes to an end, one way or the other.
pub proof fn lemma_connection_ends(c: ConnectionModel, code: int, text: Option<Seq<char>>)
    ensures
        c.next_call() is Some <==> calls_left(c.stage) > 0,
        c.next_call() is Some ==> match c.after_reply(code, text) {
            Ok(stage) => calls_left(stage) == calls_left(c.stage) - 1,
            Err(_) => true,
        },
{
}

/// A given library path is the only one that is tried; the default paths are tried once each, in
/// their order, and then the search ends.
pub proof fn lemma_search_ends(given: Option<Seq<char>>, failures: Seq<Seq<char>>)
    ensures
        search(given, failures) is Load <==> failures.len() < if given is Some {
            1nat
        } else {
            default_libraries().len()
        },
        search(given, failures) matches SearchStepModel::Load(path) ==> match given {
            Some(p) => path == p,
            None => path == default_libraries()[failures.len() as int],
        },
{
}

/// The calls that a connection makes, as long as their answers are no failures, are in this order:
/// select the probe, if a serial number was given, with that number; open; name the device; select
/// SWD; set the speed that was given; connect. Then there is none.
pub proof fn lemma_calls_in_order(
    device: Seq<char>,
    speed_khz: u32,
    serial: Option<u32>,
    states: Seq<ConnectionModel>,
    replies: Seq<(int, Option<Seq<char>>)>,
    k: int,
)
    requires
        states.len() == replies.len() + 1,
        states[0].device == device,
        states[0].speed_khz == speed_khz,
        match serial {
            Some(sn) => states[0].serial == sn && states[0].stage == Stage::SelectProbe,
            None => states[0].stage == Stage::Open,
        },
        forall|i: int|
            0 <= i < replies.len() ==> states[i].after_reply(
                (#[trigger] replies[i]).0,
                replies[i].1,
            ) == Ok::<Stage, Seq<char>>(states[i + 1].stage) && states[i + 1] == (ConnectionModel {
                stage: states[i + 1].stage,
                ..states[i]
            }),
        0 <= k < states.len(),
    ensures
        ({
            let select = match serial {
                Some(sn) => seq![LinkCallModel::SelectByUsbSn(sn)],
                None => Seq::empty(),
            };
            let calls = select + seq![
                LinkCallModel::OpenEx,
                LinkCallModel::ExecCommand("device = "@ + device),
                LinkCallModel::TifSelect(1),
                LinkCallModel::SetSpeed(speed_khz),
                LinkCallModel::Connect,
            ];
            states[k].next_call() == if k < calls.len() {
                Some(calls[k])
            } else {
                None
            }
        }),
{
    lemma_stage_after(serial, states, replies, k);
}

proof fn lemma_stage_after(
    serial: Option<u32>,
    states: Seq<ConnectionModel>,
    replies: Seq<(int, Option<Seq<char>>)>,
    k: int,
)
    requires
        states.len() == replies.len() + 1,
        match serial {
            Some(sn) => states[0].serial == sn && states[0].stage == Stage::SelectProbe,
            None => states[0].stage == Stage::Open,
        },
        forall|i: int|
            0 <= i < replies.len() ==> states[i].after_reply(
                (#[trigger] replies[i]).0,
                replies[i].1,
            ) == Ok::<Stage, Seq<char>>(states[i + 1].stage) && states[i + 1] == (ConnectionModel {
                stage: states[i + 1].stage,
                ..states[i]
            }),
        0 <= k < states.len(),
    ensures
        states[k].device == states[0].device,
        states[k].speed_khz == states[0].speed_khz,
        states[k].serial == states[0].serial,
        ({
            let total = if serial is Some {
                6int
            } else {
                5int
            };
            calls_left(states[k].stage) == if k < total {
                total - k
            } else {
                0
            }
        }),
    decreases k,
{
    if k > 0 {
        lemma_stage_after(serial, states, replies, k - 1);
        let r = replies[k - 1];
        lemma_connection_ends(states[k - 1], r.0, r.1);
    }
}

/// Which answers are failures, and what is said of them. Selecting a probe and selecting the interface
/// fail with a negative code, opening with any text, a command with a text that is not empty, and
/// connecting with any code but 0. Setting the speed cannot fail.
pub proof fn lemma_answers(c: ConnectionModel, code: int, text: Option<Seq<char>>)
    ensures
        c.next_call() matches Some(call) ==> {
            let failure = match call {
                LinkCallModel::SelectByUsbSn(sn) => if code < 0 {
                    Some(
                        "JLINKARM_EMU_SelectByUSBSN("@ + decimal(sn as nat) + ")"@
                            + " failed with rc="@ + signed_decimal(code),
                    )
                } else {
                    None
                },
                LinkCallModel::OpenEx => match text {
                    Some(msg) => Some("JLINKARM_OpenEx failed: "@ + msg),
                    None => None,
                },
                LinkCallModel::ExecCommand(cmd) => match text {
                    Some(msg) => if msg.len() > 0 {
                        Some("J-Link command `"@ + cmd + "` reported: "@ + msg)
                    } else {
                        None
                    },
                    None => None,
                },
                LinkCallModel::TifSelect(_) => if code < 0 {
                    Some("JLINKARM_TIF_Select(SWD)"@ + " failed with rc="@ + signed_decimal(code))
                } else {
                    None
                },
                LinkCallModel::SetSpeed(_) => None,
                LinkCallModel::Connect => if code != 0 {
                    Some(
                        "JLINKARM_Connect"@ + " failed with rc="@ + signed_decimal(code)
                            + " (check wiring/power/device name)"@,
                    )
                } else {
                    None
                },
            };
            match failure {
                Some(msg) => c.after_reply(code, text) == Err::<Stage, Seq<char>>(msg),
                None => c.after_reply(code, text) is Ok,
            }
        },
        c.stage == Stage::Ready ==> c.after_reply(code, text) == Ok::<Stage, Seq<char>>(
            Stage::Ready,
        ),
{
}

/// The message about a call that failed names the call and the code.
pub proof fn lemma_failed_call(call: Seq<char>, code: int)
    ensures
        failed_call_text(call, code) == call + " failed with rc="@ + signed_decimal(code),
{
}

/// Where the library is looked for, and what is said when it is not found. A given path is tried
/// alone; without one, the three default paths are tried in turn. The last error is always told.
pub proof fn lemma_search_order(given: Option<Seq<char>>, failures: Seq<Seq<char>>)
    ensures
        match given {
            Some(path) => search(given, failures) == if failures.len() == 0 {
                SearchStepModel::Load(path)
            } else {
                SearchStepModel::GiveUp(
                    "loading J-Link library from "@ + path,
                    Some(failures[failures.len() - 1]),
                )
            },
            None => search(given, failures) == if failures.len() == 0 {
                SearchStepModel::Load("libjlinkarm.so"@)
            } else if failures.len() == 1 {
                SearchStepModel::Load("/opt/SEGGER/JLink/libjlinkarm.so"@)
            } else if failures.len() == 2 {
                SearchStepModel::Load("/usr/lib/x86_64-linux-gnu/libjlinkarm.so"@)
            } else {
                SearchStepModel::GiveUp(
                    "could not load libjlinkarm.so (tried defaults; last: "@
                        + "/usr/lib/x86_64-linux-gnu/libjlinkarm.so"@ + ": "@
                        + failures[failures.len() - 1]
                        + "). Pass --lib /path/to/libjlinkarm.so"@,
                    None,
                )
            },
        },
{
}

/// The models say what the values hold.
pub proof fn lemma_link_views(
    call: LinkCall,
    step: SearchStep,
    connection: Connection,
)
    ensures
        match call {
            LinkCall::SelectByUsbSn(sn) => call@ == LinkCallModel::SelectByUsbSn(sn),
            LinkCall::OpenEx => call@ == LinkCallModel::OpenEx,
            LinkCall::ExecCommand(cmd) => call@ == LinkCallModel::ExecCommand(cmd@),
            LinkCall::TifSelect(i) => call@ == LinkCallModel::TifSelect(i),
            LinkCall::SetSpeed(khz) => call@ == LinkCallModel::SetSpeed(khz),
            LinkCall::Connect => call@ == LinkCallModel::Connect,
        },
        match step {
            SearchStep::Load(path) => step@ == SearchStepModel::Load(path@),
            SearchStep::GiveUp(msg, None) => step@ == SearchStepModel::GiveUp(msg@, None),
            SearchStep::GiveUp(msg, Some(e)) => step@ == SearchStepModel::GiveUp(msg@, Some(e@)),
        },
        connection@.device == connection.device@,
        connection@.speed_khz == connection.speed_khz,
        connection@.serial == connection.serial,
        connection@.stage == connection.stage,
{
}

} // verus!
