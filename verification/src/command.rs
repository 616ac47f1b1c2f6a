//! Lovense cloud-command construction.
//!
//! Commands go to the cloud (server) endpoint, so the toy need not share a
//! network with the controller. The body of `POST /api/lan/command` carries the
//! developer token, the uid chosen at pairing time, the `Function` command, an
//! action such as `Vibrate:16`, a run time and the API version.

use vstd::prelude::*;

use crate::number::{decimal, digit_char, lemma_decimal, lemma_digit_char, push_decimal};

verus! {

/// Maximum vibration strength accepted by Lovense (range is `0..=20`).
pub const MAX_STRENGTH: u8 = 20;

/// A strength clamped into `0..=MAX_STRENGTH`.
pub open spec fn clamp_strength(strength: u8) -> u8 {
    if strength > MAX_STRENGTH {
        MAX_STRENGTH
    } else {
        strength
    }
}

/// The action string of a vibration at `strength` (clamped), e.g. `Vibrate:15`.
pub open spec fn vibrate_action(strength: u8) -> Seq<char> {
    "Vibrate:"@ + decimal(clamp_strength(strength) as nat)
}

/// The action string that stops all motors.
pub open spec fn stop_action() -> Seq<char> {
    "Stop"@
}

/// A strength within `0..=MAX_STRENGTH` is sent as it is, and any strength
/// sends the same action as its clamped value.
pub proof fn lemma_vibrate_action_clamps_once(strength: u8)
    ensures
        strength <= MAX_STRENGTH ==> vibrate_action(strength) == "Vibrate:"@ + decimal(
            strength as nat,
        ),
        vibrate_action(clamp_strength(strength)) == vibrate_action(strength),
        clamp_strength(strength) <= MAX_STRENGTH,
{
}

/// A strength above the maximum is sent as the maximum, `Vibrate:20`; any
/// other strength is sent as it is.
pub proof fn lemma_clamp_strength(s: u8)
    ensures
        s > MAX_STRENGTH ==> clamp_strength(s) == MAX_STRENGTH,
        s <= MAX_STRENGTH ==> clamp_strength(s) == s,
        s > MAX_STRENGTH ==> vibrate_action(s) == "Vibrate:20"@,
        s <= MAX_STRENGTH ==> vibrate_action(s) == "Vibrate:"@ + decimal(s as nat),
{
    if s > MAX_STRENGTH {
        lemma_vibrate_max();
    }
}

/// The action of the strongest vibration.
proof fn lemma_vibrate_max()
    ensures
        "Vibrate:"@ + decimal(MAX_STRENGTH as nat) == "Vibrate:20"@,
{
    reveal_strlit("Vibrate:");
    reveal_strlit("Vibrate:20");
    reveal_with_fuel(decimal, 2);
    lemma_digit_char(2);
    lemma_digit_char(0);
    assert(digit_char(2) == '2');
    assert(digit_char(0) == '0');
    assert(decimal(20) =~= seq!['2', '0']);
    assert("Vibrate:"@ + decimal(20) =~= "Vibrate:20"@);
}

/// What a [`Command`] holds: its action string and its run time.
pub struct CommandView {
    pub action: Seq<char>,
    pub time_sec: u32,
}

/// What every [`Command`] holds: a stop with run time `0`, or a vibration
/// whose action names a strength within `0..=MAX_STRENGTH`.
pub open spec fn is_lovense_command(c: CommandView) -> bool {
    ||| c.action == stop_action() && c.time_sec == 0
    ||| exists|k: u8|
        k <= MAX_STRENGTH && c.action == "Vibrate:"@ + #[trigger] decimal(k as nat)
}

/// A single `Function` command, independent of credentials.
#[derive(Debug, Eq)]
pub struct Command {
    /// e.g. `"Vibrate:15"` or `"Stop"`.
    action: String,
    /// Total run time in seconds; `0` means run until stopped.
    time_sec: u32,
}

impl View for Command {
    type V = CommandView;

    closed spec fn view(&self) -> CommandView {
        CommandView { action: self.action@, time_sec: self.time_sec }
    }
}

impl Clone for Command {
    fn clone(&self) -> (c: Self)
        ensures
            c@ == self@,
    {
        proof {
            use_type_invariant(self);
        }
        Command { action: self.action.clone(), time_sec: self.time_sec }
    }
}

impl PartialEq for Command {
    fn eq(&self, other: &Self) -> (r: bool) {
        self.action == other.action && self.time_sec == other.time_sec
    }
}

impl vstd::std_specs::cmp::PartialEqSpecImpl for Command {
    open spec fn obeys_eq_spec() -> bool {
        true
    }

    open spec fn eq_spec(&self, other: &Self) -> bool {
        self@ == other@
    }
}

/// Two vibrations are the same command exactly when their clamped strengths and
/// run times agree, and no vibration is the stop command.
pub proof fn lemma_commands_compare_by_value(a: u8, t: u32, b: u8, u: u32)
    ensures
        (CommandView { action: vibrate_action(a), time_sec: t }) == (CommandView {
            action: vibrate_action(b),
            time_sec: u,
        }) <==> (clamp_strength(a) == clamp_strength(b) && t == u),
        (CommandView { action: vibrate_action(a), time_sec: t }) != (CommandView {
            action: stop_action(),
            time_sec: 0,
        }),
{
    let x = clamp_strength(a) as nat;
    let y = clamp_strength(b) as nat;
    lemma_decimal(x);
    lemma_decimal(y);
    let p = "Vibrate:"@;
    if vibrate_action(a) == vibrate_action(b) {
        assert(vibrate_action(a).skip(p.len() as int) =~= decimal(x));
        assert(vibrate_action(b).skip(p.len() as int) =~= decimal(y));
    }
    reveal_strlit("Vibrate:");
    reveal_strlit("Stop");
    assert(vibrate_action(a)[0] == 'V');
    assert(stop_action()[0] == 'S');
}

/// Serializable body for `POST /api/lan/command`.
#[derive(Debug, Clone, PartialEq, Eq)]
pub struct ServerBody {
    pub token: String,
    pub uid: String,
    pub command: &'static str,
    pub action: String,
    pub time_sec: u32,
    pub api_ver: u8,
}

impl Command {
    #[verifier::type_invariant]
    spec fn wf(self) -> bool {
        is_lovense_command(self@)
    }

    /// Vibrate at `strength` (clamped to `0..=20`) for `time_sec` seconds
    /// (`0` = until stopped).
    pub fn vibrate(strength: u8, time_sec: u32) -> (c: Self)
        ensures
            c@ == (CommandView { action: vibrate_action(strength), time_sec }),
            strength > MAX_STRENGTH ==> c@.action == "Vibrate:20"@,
            strength <= MAX_STRENGTH ==> c@.action == "Vibrate:"@ + decimal(strength as nat),
            c@.time_sec == time_sec,
    {
        proof {
            lemma_clamp_strength(strength);
        }
        let ghost old_strength = strength;
        let strength = if strength > MAX_STRENGTH {
            MAX_STRENGTH
        } else {
            strength
        };
        assert(strength == clamp_strength(old_strength));
        let mut action = String::from_str("Vibrate:");
        push_decimal(&mut action, strength);
        assert(action@ == "Vibrate:"@ + decimal(strength as nat));
        Command { action, time_sec }
    }

    /// Stop all motors immediately.
    pub fn stop() -> (c: Self)
        ensures
            c@ == (CommandView { action: stop_action(), time_sec: 0 }),
    {
        Command { action: String::from_str("Stop"), time_sec: 0 }
    }

    /// The Lovense action string, e.g. `"Vibrate:10"`.
    pub fn action(&self) -> (a: &str)
        ensures
            a@ == self@.action,
            is_lovense_command(self@),
    {
        proof {
            use_type_invariant(self);
        }
        self.action.as_str()
    }

    /// Total run time in seconds (`0` = until stopped).
    pub fn time_sec(&self) -> (t: u32)
        ensures
            t == self@.time_sec,
            is_lovense_command(self@),
    {
        proof {
            use_type_invariant(self);
        }
        self.time_sec
    }

    /// Build the full server-command body for the cloud endpoint, injecting the
    /// developer `token` and the `uid` chosen at pairing time.
    pub fn to_server_body(&self, token: &str, uid: &str) -> (b: ServerBody)
        ensures
            b.token@ == token@,
            b.uid@ == uid@,
            b.command@ == "Function"@,
            b.action@ == self@.action,
            b.time_sec == self@.time_sec,
            b.api_ver == 1,
    {
        ServerBody {
            token: String::from_str(token),
            uid: String::from_str(uid),
            command: "Function",
            action: self.action.clone(),
            time_sec: self.time_sec,
            api_ver: 1,
        }
    }
}

} // verus!
