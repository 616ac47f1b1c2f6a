//! Parsing of incoming Telegram message text into bot commands.

use vstd::prelude::*;
use vstd::utf8::is_ascii_chars;

use crate::command::{
    clamp_strength, lemma_clamp_strength, stop_action, vibrate_action, Command, CommandView,
    MAX_STRENGTH,
};
use crate::number::{decimal, is_digit, lemma_decimal, lemma_digits_value_monotonic, parse_unsigned, parse_unsigned_at};
use crate::text::{
    join_words, lemma_words_join, lemma_words_well_formed, no_ws,
    all_ws, chars_of, is_ws, lemma_words_leading_word, lemma_words_ws_around, next_word, same_text,
    lemma_trim_unchanged, trim, trim_bounds, words,
};

verus! {

/// A parsed bot command.
#[derive(Debug, Clone, PartialEq, Eq, Structural)]
pub enum BotCommand {
    /// Vibrate at `strength` (already clamped to `0..=20`) for `time_sec`
    /// seconds (`0` = until stopped).
    Vibrate { strength: u8, time_sec: u32 },
    /// Stop all motors.
    Stop,
    /// Request a pairing QR code.
    Pair,
    /// Show help.
    Help,
    /// Report connection/toy status.
    Status,
}

/// Why a message could not be parsed into a [`BotCommand`].
#[derive(Debug, Clone, Eq)]
pub enum ParseError {
    /// The text was empty or whitespace only.
    Empty,
    /// The text did not start with `/`.
    NotACommand,
    /// The command name is not recognised.
    UnknownCommand(String),
    /// `/vibrate` was given without a strength argument.
    MissingStrength,
    /// The strength argument was not a valid number.
    InvalidStrength(String),
    /// The duration argument was not a valid duration.
    InvalidDuration(String),
}

/// A [`ParseError`] with its text as characters.
pub enum ParseErrorView {
    Empty,
    NotACommand,
    UnknownCommand(Seq<char>),
    MissingStrength,
    InvalidStrength(Seq<char>),
    InvalidDuration(Seq<char>),
}

impl View for ParseError {
    type V = ParseErrorView;

    open spec fn view(&self) -> ParseErrorView {
        match self {
            ParseError::Empty => ParseErrorView::Empty,
            ParseError::NotACommand => ParseErrorView::NotACommand,
            ParseError::UnknownCommand(s) => ParseErrorView::UnknownCommand(s@),
            ParseError::MissingStrength => ParseErrorView::MissingStrength,
            ParseError::InvalidStrength(s) => ParseErrorView::InvalidStrength(s@),
            ParseError::InvalidDuration(s) => ParseErrorView::InvalidDuration(s@),
        }
    }
}

impl PartialEq for ParseError {
    fn eq(&self, other: &Self) -> (r: bool) {
        match (self, other) {
            (ParseError::Empty, ParseError::Empty) => true,
            (ParseError::NotACommand, ParseError::NotACommand) => true,
            (ParseError::UnknownCommand(a), ParseError::UnknownCommand(b)) => *a == *b,
            (ParseError::MissingStrength, ParseError::MissingStrength) => true,
            (ParseError::InvalidStrength(a), ParseError::InvalidStrength(b)) => *a == *b,
            (ParseError::InvalidDuration(a), ParseError::InvalidDuration(b)) => *a == *b,
            _ => false,
        }
    }
}

impl vstd::std_specs::cmp::PartialEqSpecImpl for ParseError {
    open spec fn obeys_eq_spec() -> bool {
        true
    }

    open spec fn eq_spec(&self, other: &Self) -> bool {
        self@ == other@
    }
}

/// A result whose error is seen through its view.
pub open spec fn result_view<T>(r: Result<T, ParseError>) -> Result<T, ParseErrorView> {
    match r {
        Ok(v) => Ok(v),
        Err(e) => Err(e@),
    }
}

/// Default vibration duration when none is supplied (`0` = until `/stop`).
pub const DEFAULT_TIME_SEC: u32 = 0;

/// What [`parse_duration`] gives for the characters `s`: after trimming, a bare
/// number of seconds or a number with an `s`, `m` or `h` suffix, whose value in
/// seconds fits in a `u32`.
pub open spec fn spec_parse_duration(s: Seq<char>) -> Result<u32, ParseErrorView> {
    let t = trim(s);
    let invalid = Err(ParseErrorView::InvalidDuration(t));
    if t.len() == 0 {
        invalid
    } else {
        let (num, mult) = if t.last() == 's' {
            (t.drop_last(), 1int)
        } else if t.last() == 'm' {
            (t.drop_last(), 60int)
        } else if t.last() == 'h' {
            (t.drop_last(), 3600int)
        } else {
            (t, 1int)
        };
        match parse_unsigned(num, u32::MAX as int) {
            Some(v) => if v * mult <= u32::MAX {
                Ok((v * mult) as u32)
            } else {
                invalid
            },
            None => invalid,
        }
    }
}

/// A number with a unit suffix reads as that many seconds, minutes (times 60)
/// or hours (times 3600), and a bare number as seconds; a count of seconds
/// that does not fit in a `u32` is an invalid duration.
pub proof fn lemma_parse_duration_units(n: nat)
    ensures
        spec_parse_duration(decimal(n)) == if n <= u32::MAX {
            Ok(n as u32)
        } else {
            Err(ParseErrorView::InvalidDuration(decimal(n)))
        },
        spec_parse_duration(decimal(n) + seq!['s']) == if n <= u32::MAX {
            Ok(n as u32)
        } else {
            Err(ParseErrorView::InvalidDuration(decimal(n) + seq!['s']))
        },
        spec_parse_duration(decimal(n) + seq!['m']) == if n * 60 <= u32::MAX {
            Ok((n * 60) as u32)
        } else {
            Err(ParseErrorView::InvalidDuration(decimal(n) + seq!['m']))
        },
        spec_parse_duration(decimal(n) + seq!['h']) == if n * 3600 <= u32::MAX {
            Ok((n * 3600) as u32)
        } else {
            Err(ParseErrorView::InvalidDuration(decimal(n) + seq!['h']))
        },
{
    lemma_decimal(n);
    let d = decimal(n);
    assert(is_digit(d[0]));
    assert(is_digit(d.last()));
    lemma_trim_unchanged(d);
    lemma_duration_with_suffix(n, 's');
    lemma_duration_with_suffix(n, 'm');
    lemma_duration_with_suffix(n, 'h');
    let ts = d + seq!['s'];
    assert(trim(ts) == ts);
    assert(ts.last() == 's');
    if n <= u32::MAX {
        assert(parse_unsigned(ts.drop_last(), u32::MAX as int) == Some(n as int));
        assert(n * 1 == n);
    }
    assert(trim(d) == d);
    assert(d.last() != 's' && d.last() != 'm' && d.last() != 'h');
}

/// `decimal(n)` followed by the unit `c` trims to itself and splits back into
/// `decimal(n)` and `c`.
proof fn lemma_duration_with_suffix(n: nat, c: char)
    requires
        c == 's' || c == 'm' || c == 'h',
    ensures
        trim(decimal(n) + seq![c]) == decimal(n) + seq![c],
        (decimal(n) + seq![c]).last() == c,
        (decimal(n) + seq![c]).drop_last() == decimal(n),
        parse_unsigned(decimal(n), u32::MAX as int) == if n <= u32::MAX {
            Some(n as int)
        } else {
            None
        },
{
    lemma_decimal(n);
    let d = decimal(n);
    let t = d + seq![c];
    assert(t[0] == d[0]);
    assert(is_digit(d[0]));
    assert(t.last() == c);
    lemma_trim_unchanged(t);
    assert(t.drop_last() =~= d);
}

/// A vibration strength above the maximum is read as the maximum; any other
/// strength as it is, with no duration meaning until stopped.
pub proof fn lemma_vibrate_strength(name: Seq<char>, st: Seq<char>, v: int)
    requires
        name == "vibrate"@ || name == "v"@,
        parse_unsigned(st, u8::MAX as int) == Some(v),
    ensures
        spec_command(name, Some(st), None) == Ok::<BotCommand, ParseErrorView>(
            BotCommand::Vibrate {
                strength: if v > MAX_STRENGTH {
                    MAX_STRENGTH
                } else {
                    v as u8
                },
                time_sec: 0,
            },
        ),
{
    let body = if st.len() > 0 && st[0] == '+' {
        st.drop_first()
    } else {
        st
    };
    lemma_digits_value_monotonic(body, 0);
    assert(0 <= v <= 255);
    lemma_clamp_strength(v as u8);
}

/// The command names and their aliases: `stop`, `s` and `halt` stop, `pair`
/// and `link` pair, `help` and `start` show help and `status` reports status,
/// whatever arguments follow.
pub proof fn lemma_command_names(strength: Option<Seq<char>>, duration: Option<Seq<char>>)
    ensures
        spec_command("stop"@, strength, duration) == Ok::<BotCommand, ParseErrorView>(BotCommand::Stop),
        spec_command("s"@, strength, duration) == Ok::<BotCommand, ParseErrorView>(BotCommand::Stop),
        spec_command("halt"@, strength, duration) == Ok::<BotCommand, ParseErrorView>(BotCommand::Stop),
        spec_command("pair"@, strength, duration) == Ok::<BotCommand, ParseErrorView>(BotCommand::Pair),
        spec_command("link"@, strength, duration) == Ok::<BotCommand, ParseErrorView>(BotCommand::Pair),
        spec_command("help"@, strength, duration) == Ok::<BotCommand, ParseErrorView>(BotCommand::Help),
        spec_command("start"@, strength, duration) == Ok::<BotCommand, ParseErrorView>(BotCommand::Help),
        spec_command("status"@, strength, duration) == Ok::<BotCommand, ParseErrorView>(
            BotCommand::Status,
        ),
        spec_command("vibrate"@, None, duration) == Err::<BotCommand, ParseErrorView>(
            ParseErrorView::MissingStrength,
        ),
        spec_command("v"@, None, duration) == Err::<BotCommand, ParseErrorView>(
            ParseErrorView::MissingStrength,
        ),
{
    reveal_strlit("vibrate");
    reveal_strlit("v");
    reveal_strlit("stop");
    reveal_strlit("s");
    reveal_strlit("halt");
    reveal_strlit("pair");
    reveal_strlit("link");
    reveal_strlit("help");
    reveal_strlit("start");
    reveal_strlit("status");
    assert("v"@.len() == 1 && "v"@[0] == 'v');
    assert("s"@.len() == 1 && "s"@[0] == 's');
    assert("vibrate"@.len() == 7 && "vibrate"@[0] == 'v');
    assert("stop"@.len() == 4 && "stop"@[0] == 's' && "stop"@[1] == 't');
    assert("halt"@.len() == 4 && "halt"@[0] == 'h');
    assert("pair"@.len() == 4 && "pair"@[0] == 'p');
    assert("link"@.len() == 4 && "link"@[0] == 'l');
    assert("help"@.len() == 4 && "help"@[0] == 'h' && "help"@[1] == 'e');
    assert("start"@.len() == 5 && "start"@[0] == 's');
    assert("status"@.len() == 6 && "status"@[0] == 's');
}

/// Parse a duration token into seconds.
///
/// Accepts a bare number (seconds) or a `s`/`m`/`h` suffix: `30`, `30s`,
/// `2m`, `1h`. Overflow is reported as [`ParseError::InvalidDuration`].
pub fn parse_duration(s: &str) -> (r: Result<u32, ParseError>)
    ensures
        result_view(r) == spec_parse_duration(s@),
{
    let v = chars_of(s);
    let (a, b) = trim_bounds(&v);
    let trimmed = s.substring_char(a, b);
    if a == b {
        return Err(ParseError::InvalidDuration(String::from_str(trimmed)));
    }
    let last = v[b - 1];
    let (end, mult): (usize, u64) = if last == 's' {
        (b - 1, 1)
    } else if last == 'm' {
        (b - 1, 60)
    } else if last == 'h' {
        (b - 1, 3600)
    } else {
        (b, 1)
    };
    proof {
        let t = trim(v@);
        assert(t.last() == last);
        assert(t.drop_last() =~= v@.subrange(a as int, b - 1));
    }
    match parse_unsigned_at(&v, a, end, 0xffff_ffffu64) {
        Some(value) => {
            let secs = value * mult;
            if secs <= 0xffff_ffffu64 {
                Ok(secs as u32)
            } else {
                Err(ParseError::InvalidDuration(String::from_str(trimmed)))
            }
        },
        None => Err(ParseError::InvalidDuration(String::from_str(trimmed))),
    }
}


/// Names the result of std's `str::to_lowercase` on the characters `s`.
pub uninterp spec fn str_lowercase(s: Seq<char>) -> Seq<char>;

/// `A`..=`Z` become `a`..=`z`; every other character stays.
pub open spec fn ascii_lower(c: char) -> char {
    if 'A' <= c <= 'Z' {
        ((c as u32) + 32) as char
    } else {
        c
    }
}

/// `a`..=`z` become `A`..=`Z`; every other character stays.
pub open spec fn ascii_upper(c: char) -> char {
    if 'a' <= c <= 'z' {
        ((c as u32) - 32) as char
    } else {
        c
    }
}

/// `s` with its ASCII letters lowercased.
pub open spec fn ascii_lowercase(s: Seq<char>) -> Seq<char> {
    s.map_values(|c: char| ascii_lower(c))
}

/// `s` with its ASCII letters uppercased.
pub open spec fn ascii_uppercase(s: Seq<char>) -> Seq<char> {
    s.map_values(|c: char| ascii_upper(c))
}

/// The lowercase form in which a command name is read: ASCII letters lowercased
/// for an all-ASCII name, the Unicode lowercase mapping of std otherwise.
pub open spec fn lowercase_name(s: Seq<char>) -> Seq<char> {
    if is_ascii_chars(s) {
        ascii_lowercase(s)
    } else {
        str_lowercase(s)
    }
}

/// Calls std's `str::to_lowercase`. Claims that the result depends on the
/// characters of `s` alone, and that an all-ASCII `s` comes back with `A`..=`Z`
/// mapped to `a`..=`z` and every other character unchanged: the Unicode
/// lowercase mapping std documents maps those letters so and leaves the rest of
/// ASCII alone. What the mapping gives for other characters is not stated.
#[verifier::external_body]
fn to_lowercase(s: &str) -> (r: String)
    ensures
        r@ == str_lowercase(s@),
        is_ascii_chars(s@) ==> r@ == ascii_lowercase(s@),
{
    s.to_lowercase()
}

/// Number of characters of `s` before its first `@` (all of them if it has none).
pub open spec fn at_index(s: Seq<char>) -> nat
    decreases s.len(),
{
    if s.len() > 0 && s[0] != '@' {
        1 + at_index(s.drop_first())
    } else {
        0
    }
}

/// `s` up to its first `@`: a command name without its `@botname` suffix.
pub open spec fn before_at(s: Seq<char>) -> Seq<char> {
    s.take(at_index(s) as int)
}

/// A run without `@` that ends at an `@` (or at the end) is all of `s` before its
/// first `@`.
pub proof fn lemma_at_index_is(s: Seq<char>, j: int)
    requires
        0 <= j <= s.len(),
        forall|k: int| 0 <= k < j ==> #[trigger] s[k] != '@',
        j == s.len() || s[j] == '@',
    ensures
        at_index(s) == j,
    decreases j,
{
    if j > 0 {
        let t = s.drop_first();
        assert forall|k: int| 0 <= k < j - 1 implies #[trigger] t[k] != '@' by {
            assert(t[k] == s[k + 1]);
        }
        if j < s.len() {
            assert(t[j - 1] == s[j]);
        }
        lemma_at_index_is(t, j - 1);
    }
}

/// The characters of an optional string.
pub open spec fn opt_view(o: Option<&str>) -> Option<Seq<char>> {
    match o {
        Some(s) => Some(s@),
        None => None,
    }
}

/// What a lowercased command `name` means, given its optional strength and
/// duration arguments.
pub open spec fn spec_command(
    name: Seq<char>,
    strength: Option<Seq<char>>,
    duration: Option<Seq<char>>,
) -> Result<BotCommand, ParseErrorView> {
    if name == "vibrate"@ || name == "v"@ {
        match strength {
            None => Err(ParseErrorView::MissingStrength),
            Some(st) => match parse_unsigned(st, u8::MAX as int) {
                None => Err(ParseErrorView::InvalidStrength(st)),
                Some(v) => {
                    let strength = clamp_strength(v as u8);
                    match duration {
                        None => Ok(BotCommand::Vibrate { strength, time_sec: DEFAULT_TIME_SEC }),
                        Some(d) => match spec_parse_duration(d) {
                            Ok(time_sec) => Ok(BotCommand::Vibrate { strength, time_sec }),
                            Err(e) => Err(e),
                        },
                    }
                },
            },
        }
    } else if name == "stop"@ || name == "s"@ || name == "halt"@ {
        Ok(BotCommand::Stop)
    } else if name == "pair"@ || name == "link"@ {
        Ok(BotCommand::Pair)
    } else if name == "help"@ || name == "start"@ {
        Ok(BotCommand::Help)
    } else if name == "status"@ {
        Ok(BotCommand::Status)
    } else {
        Err(ParseErrorView::UnknownCommand(name))
    }
}

/// What [`parse`] gives for the message characters `text`.
pub open spec fn spec_parse(text: Seq<char>) -> Result<BotCommand, ParseErrorView> {
    let ws = words(text);
    if ws.len() == 0 {
        Err(ParseErrorView::Empty)
    } else if !(ws[0].len() > 0 && ws[0][0] == '/') {
        Err(ParseErrorView::NotACommand)
    } else {
        spec_command(
            lowercase_name(before_at(ws[0].drop_first())),
            if ws.len() > 1 {
                Some(ws[1])
            } else {
                None
            },
            if ws.len() > 2 {
                Some(ws[2])
            } else {
                None
            },
        )
    }
}

/// Interpret an already lowercased command `name` with its optional strength
/// and duration arguments.
pub fn command_from_name(name: &str, strength: Option<&str>, duration: Option<&str>) -> (r:
    Result<BotCommand, ParseError>)
    ensures
        result_view(r) == spec_command(name@, opt_view(strength), opt_view(duration)),
        r matches Ok(BotCommand::Vibrate { strength, .. }) ==> strength <= MAX_STRENGTH,
{
    if same_text(name, "vibrate") || same_text(name, "v") {
        let strength_str = match strength {
            Some(st) => st,
            None => return Err(ParseError::MissingStrength),
        };
        let chars = chars_of(strength_str);
        proof {
            assert(chars@.subrange(0, chars@.len() as int) =~= chars@);
        }
        let value = match parse_unsigned_at(&chars, 0, chars.len(), 0xffu64) {
            Some(v) => v as u8,
            None => return Err(ParseError::InvalidStrength(String::from_str(strength_str))),
        };
        let strength = if value > MAX_STRENGTH {
            MAX_STRENGTH
        } else {
            value
        };
        let time_sec = match duration {
            Some(d) => match parse_duration(d) {
                Ok(t) => t,
                Err(e) => return Err(e),
            },
            None => DEFAULT_TIME_SEC,
        };
        Ok(BotCommand::Vibrate { strength, time_sec })
    } else if same_text(name, "stop") || same_text(name, "s") || same_text(name, "halt") {
        Ok(BotCommand::Stop)
    } else if same_text(name, "pair") || same_text(name, "link") {
        Ok(BotCommand::Pair)
    } else if same_text(name, "help") || same_text(name, "start") {
        Ok(BotCommand::Help)
    } else if same_text(name, "status") {
        Ok(BotCommand::Status)
    } else {
        Err(ParseError::UnknownCommand(String::from_str(name)))
    }
}

/// Parse raw Telegram message `text` into a [`BotCommand`].
///
/// Accepts a leading `/`, an optional `@botname` suffix, and is
/// case-insensitive on the command name. Examples: `/vibrate 15`,
/// `/v 10 30s`, `/stop@my_bot`, `/pair`.
#[verifier::rlimit(40)]
pub fn parse(text: &str) -> (r: Result<BotCommand, ParseError>)
    ensures
        result_view(r) == spec_parse(text@),
        r matches Ok(BotCommand::Vibrate { strength, .. }) ==> strength <= MAX_STRENGTH,
{
    let v = chars_of(text);
    proof {
        assert(v@.skip(0) =~= v@);
    }
    let (a0, b0) = match next_word(&v, 0) {
        Some(w) => w,
        None => return Err(ParseError::Empty),
    };
    let ghost ws = words(v@);
    assert(ws[0] == v@.subrange(a0 as int, b0 as int));
    if v[a0] != '/' {
        return Err(ParseError::NotACommand);
    }
    let mut e = a0 + 1;
    while e < b0 && v[e] != '@'
        invariant
            a0 + 1 <= e <= b0 <= v@.len(),
            forall|k: int| a0 + 1 <= k < e ==> #[trigger] v@[k] != '@',
        decreases b0 - e,
    {
        e = e + 1;
    }
    proof {
        let raw = ws[0].drop_first();
        assert(raw =~= v@.subrange(a0 + 1, b0 as int));
        assert forall|k: int| 0 <= k < e - a0 - 1 implies #[trigger] raw[k] != '@' by {
            assert(raw[k] == v@[k + a0 + 1]);
        }
        if e < b0 {
            assert(raw[e - a0 - 1] == v@[e as int]);
        }
        lemma_at_index_is(raw, e - a0 - 1);
        assert(before_at(raw) =~= v@.subrange(a0 + 1, e as int));
    }
    let name = to_lowercase(text.substring_char(a0 + 1, e));
    let (strength, duration) = match next_word(&v, b0) {
        None => (None, None),
        Some((a1, b1)) => {
            let strength = Some(text.substring_char(a1, b1));
            match next_word(&v, b1) {
                None => (strength, None),
                Some((a2, b2)) => (strength, Some(text.substring_char(a2, b2))),
            }
        },
    };
    command_from_name(name.as_str(), strength, duration)
}

/// Whitespace around a message does not change what it parses to.
pub proof fn lemma_parse_ignores_surrounding_whitespace(
    w1: Seq<char>,
    text: Seq<char>,
    w2: Seq<char>,
)
    requires
        all_ws(w1),
        all_ws(w2),
    ensures
        spec_parse(w1 + text + w2) == spec_parse(text),
{
    lemma_words_ws_around(w1, text, w2);
}

/// No character of `s` is `@`.
pub open spec fn no_at(s: Seq<char>) -> bool {
    forall|k: int| 0 <= k < s.len() ==> #[trigger] s[k] != '@'
}

/// The command word `/name` followed by the rest of the message.
pub open spec fn command_text(name: Seq<char>, rest: Seq<char>) -> Seq<char> {
    seq!['/'] + name + rest
}

/// How `before_at` and `words` see a command word `/name` followed by `rest`.
proof fn lemma_command_text(name: Seq<char>, rest: Seq<char>)
    requires
        no_ws(name),
        rest.len() == 0 || is_ws(rest[0]),
    ensures
        words(command_text(name, rest)) == seq![seq!['/'] + name] + words(rest),
        (seq!['/'] + name).drop_first() == name,
{
    let w = seq!['/'] + name;
    assert forall|k: int| 0 <= k < w.len() implies !is_ws(#[trigger] w[k]) by {
        if k > 0 {
            assert(w[k] == name[k - 1]);
        } else {
            assert(w[0] == '/');
        }
    }
    assert(command_text(name, rest) =~= w + rest);
    lemma_words_leading_word(w, rest);
    assert(w.drop_first() =~= name);
}

/// A message means the same whether or not its command name carries an
/// `@botname` suffix.
pub proof fn lemma_parse_ignores_bot_suffix(name: Seq<char>, bot: Seq<char>, rest: Seq<char>)
    requires
        no_ws(name),
        no_at(name),
        no_ws(bot),
        rest.len() == 0 || is_ws(rest[0]),
    ensures
        spec_parse(command_text(name + seq!['@'] + bot, rest)) == spec_parse(command_text(name, rest)),
{
    let tagged = name + seq!['@'] + bot;
    assert forall|k: int| 0 <= k < tagged.len() implies !is_ws(#[trigger] tagged[k]) by {
        if k < name.len() {
            assert(tagged[k] == name[k]);
        } else if k > name.len() {
            assert(tagged[k] == bot[k - name.len() - 1]);
        } else {
            assert(tagged[k] == '@');
        }
    }
    lemma_command_text(tagged, rest);
    lemma_command_text(name, rest);
    assert forall|k: int| 0 <= k < name.len() implies #[trigger] tagged[k] != '@' by {
        assert(tagged[k] == name[k]);
    }
    assert(tagged[name.len() as int] == '@');
    lemma_at_index_is(tagged, name.len() as int);
    lemma_at_index_is(name, name.len() as int);
    assert(before_at(tagged) =~= name);
    assert(before_at(name) =~= name);
}

/// The command name is read through its lowercase form: two names with the same
/// lowercase form give messages that mean the same.
pub proof fn lemma_parse_case_insensitive(name1: Seq<char>, name2: Seq<char>, rest: Seq<char>)
    requires
        no_ws(name1),
        no_ws(name2),
        no_at(name1),
        no_at(name2),
        lowercase_name(name1) == lowercase_name(name2),
        rest.len() == 0 || is_ws(rest[0]),
    ensures
        spec_parse(command_text(name1, rest)) == spec_parse(command_text(name2, rest)),
{
    lemma_command_text(name1, rest);
    lemma_command_text(name2, rest);
    lemma_at_index_is(name1, name1.len() as int);
    lemma_at_index_is(name2, name2.len() as int);
    assert(before_at(name1) =~= name1);
    assert(before_at(name2) =~= name2);
}

/// Upper- or lowercase, an ASCII command name means the same.
pub proof fn lemma_parse_ignores_ascii_case(name: Seq<char>, rest: Seq<char>)
    requires
        is_ascii_chars(name),
        no_ws(name),
        no_at(name),
        rest.len() == 0 || is_ws(rest[0]),
    ensures
        spec_parse(command_text(ascii_uppercase(name), rest)) == spec_parse(command_text(name, rest)),
{
    let up = ascii_uppercase(name);
    assert forall|k: int| 0 <= k < up.len() implies {
        &&& '\0' <= #[trigger] up[k] <= '\u{7f}'
        &&& !is_ws(up[k])
        &&& up[k] != '@'
        &&& ascii_lower(up[k]) == ascii_lower(name[k])
    } by {
        let c = name[k];
        assert(up[k] == ascii_upper(c));
        assert('\0' <= c <= '\u{7f}');
        assert(!is_ws(c));
        assert(c != '@');
        if 'a' <= c <= 'z' {
            let d = ((c as u32) - 32) as char;
            assert(d as u32 == (c as u32) - 32);
            assert(((d as u32) + 32) as char == c);
        }
    }
    assert(is_ascii_chars(up));
    assert(ascii_lowercase(up) =~= ascii_lowercase(name));
    lemma_parse_case_insensitive(up, name, rest);
}

/// A command word in any ASCII case, with or without an `@botname` suffix,
/// means the same as the plain lowercase name.
pub proof fn lemma_parse_normalises_command_word(name: Seq<char>, bot: Seq<char>, rest: Seq<char>)
    requires
        is_ascii_chars(name),
        no_ws(name),
        no_at(name),
        no_ws(bot),
        rest.len() == 0 || is_ws(rest[0]),
    ensures
        spec_parse(command_text(ascii_uppercase(name) + seq!['@'] + bot, rest)) == spec_parse(
            command_text(name, rest),
        ),
{
    let up = ascii_uppercase(name);
    assert forall|k: int| 0 <= k < up.len() implies !is_ws(#[trigger] up[k]) && up[k] != '@' by {
        let c = name[k];
        assert(up[k] == ascii_upper(c));
        assert(!is_ws(c));
        assert(c != '@');
    }
    lemma_parse_ignores_bot_suffix(up, bot, rest);
    lemma_parse_ignores_ascii_case(name, rest);
}

/// A message is read only through its words: the words joined by single spaces
/// mean the same as the message, however much whitespace stood between them.
pub proof fn lemma_parse_reads_only_words(text: Seq<char>)
    ensures
        spec_parse(join_words(words(text))) == spec_parse(text),
{
    lemma_words_well_formed(text);
    lemma_words_join(words(text));
}

impl BotCommand {
    /// Map a command to the Lovense [`Command`] it triggers, if any. Meta
    /// commands (`Pair`, `Help`, `Status`) drive no toy and return `None`.
    pub fn to_lovense(&self) -> (c: Option<Command>)
        ensures
            match *self {
                BotCommand::Vibrate { strength, time_sec } => c matches Some(cmd) && cmd@ == (
                CommandView { action: vibrate_action(strength), time_sec }),
                BotCommand::Stop => c matches Some(cmd) && cmd@ == (CommandView {
                    action: stop_action(),
                    time_sec: 0,
                }),
                _ => c is None,
            },
    {
        match self {
            BotCommand::Vibrate { strength, time_sec } => Some(Command::vibrate(*strength, *time_sec)),
            BotCommand::Stop => Some(Command::stop()),
            BotCommand::Pair | BotCommand::Help | BotCommand::Status => None,
        }
    }
}

} // verus!
