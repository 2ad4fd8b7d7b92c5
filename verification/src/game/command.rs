//! One tick's worth of player intent, and the UI action protocol that
//! builds it: `<verb> [args…]`, with entity ids and cells packed via their
//! bits in decimal.

use vstd::prelude::*;
use crate::entities::id::EntityId;
use crate::game::map::{CellPos, cell_bits, cell_of_bits};
use crate::game::map_text::{is_ws, is_whitespace, trim_start};
use crate::game::world::ActivityVerb;
use crate::util::decimal::{decimal, is_digit, lemma_decimal_digits, lemma_decimal_round_trip, parse_u64, parse_u64_spec};

verus! {

/// One tick's worth of player intent: not a verb to dispatch on, but a
/// superset of independent fields, each turning one step of the tick on or
/// off — zero everywhere means "leave it alone".
#[derive(Clone, Copy, PartialEq, Eq, Structural, Debug)]
pub struct Command {
    /// Request one day to pass; the sim declines while the player idles.
    pub advance_time: bool,
    /// Order the player into this activity; `None` = no order given. An
    /// order of Idle is the stop.
    pub activity: Option<ActivityVerb>,
    /// Let time pass while otherwise unoccupied.
    pub wait: bool,
    /// Where an ordered Travel goes; zero = nowhere.
    pub destination: CellPos,
    /// Pick this choice (0-based) of the open interaction; `None` = no pick.
    pub choose: Option<u32>,
    /// Despawn this entity; null = nobody.
    pub remove: EntityId,
    /// Set this entity's gender to female; null = nobody.
    pub femalify: EntityId,
}

/// The zero command: does nothing.
pub open spec fn idle_command() -> Command {
    Command {
        advance_time: false,
        activity: None,
        wait: false,
        destination: CellPos { x: 0, y: 0 },
        choose: None,
        remove: EntityId::null_spec(),
        femalify: EntityId::null_spec(),
    }
}

impl Default for Command {
    fn default() -> (c: Command)
        ensures
            c == idle_command(),
    {
        Command {
            advance_time: false,
            activity: None,
            wait: false,
            destination: CellPos::default(),
            choose: None,
            remove: EntityId::null(),
            femalify: EntityId::null(),
        }
    }
}

/// Why an action did not fold into the command cleanly.
#[derive(Clone, Copy, PartialEq, Eq, Structural, Debug)]
pub enum ActionError {
    /// A known verb with an argument that does not parse; it read as the
    /// zero value.
    Malformed,
    /// No such verb.
    Unhandled,
}

/// What one tick reports back: a superset of fields with meaningful zeros.
#[derive(Clone, Copy, PartialEq, Eq, Structural, Debug)]
pub struct Output {
    /// The sim is declining to advance time: the player is idle or absent,
    /// or an interaction waits.
    pub forced_paused: bool,
}

/// What kind of happening an [`Event`] records.
#[derive(Clone, Copy, PartialEq, Eq, Structural, Debug)]
pub enum EventKind {
    /// `subject` completed a journey at settlement `target`.
    Arrival,
    /// `subject` dies today.
    Death,
}

/// A notable happening, recorded during the day pass and resolved after it.
#[derive(Clone, Copy, PartialEq, Eq, Structural, Debug)]
pub struct Event {
    pub kind: EventKind,
    pub subject: EntityId,
    pub target: EntityId,
}

/// The run of non-white-space characters `s` starts with.
pub open spec fn leading_token(s: Seq<char>) -> Seq<char>
    decreases s.len(),
{
    if s.len() == 0 || is_ws(s[0]) {
        Seq::empty()
    } else {
        seq![s[0]] + leading_token(s.drop_first())
    }
}

/// The first white-space-separated word of `s`, empty when there is none.
pub open spec fn first_word(s: Seq<char>) -> Seq<char> {
    leading_token(trim_start(s))
}

/// What follows the first word of `s`.
pub open spec fn after_first_word(s: Seq<char>) -> Seq<char> {
    trim_start(s).skip(first_word(s).len() as int)
}

/// The second white-space-separated word of `s`, empty when there is none.
pub open spec fn second_word(s: Seq<char>) -> Seq<char> {
    first_word(after_first_word(s))
}

/// An argument that reads as packed bits, or the zero value (and a
/// malformed report) when it does not.
pub open spec fn packed_arg(arg: Seq<char>) -> (u64, bool) {
    match parse_u64_spec(arg) {
        Some(bits) => (bits, true),
        None => (0, false),
    }
}

/// What folding `action` into `c` gives: the new command and the report.
pub open spec fn fold_action(c: Command, action: Seq<char>) -> (Command, Result<(), ActionError>) {
    let verb = first_word(action);
    let arg = second_word(action);
    if verb == "advance_time"@ {
        (Command { advance_time: true, ..c }, Ok(()))
    } else if verb == "rest"@ {
        (Command { activity: Some(ActivityVerb::Rest), ..c }, Ok(()))
    } else if verb == "stop"@ {
        (Command { activity: Some(ActivityVerb::Idle), ..c }, Ok(()))
    } else if verb == "travel"@ {
        let (bits, ok) = packed_arg(arg);
        let destination = cell_of_bits(bits);
        let next = if destination != (CellPos { x: 0, y: 0 }) {
            Command { activity: Some(ActivityVerb::Travel), destination, ..c }
        } else {
            c
        };
        (next, if ok { Ok(()) } else { Err(ActionError::Malformed) })
    } else if verb == "choose"@ {
        match parse_u64_spec(arg) {
            Some(n) => if n <= u32::MAX {
                (Command { choose: Some(n as u32), ..c }, Ok(()))
            } else {
                (c, Err(ActionError::Malformed))
            },
            None => (c, Err(ActionError::Malformed)),
        }
    } else if verb == "remove"@ {
        let (bits, ok) = packed_arg(arg);
        (Command { remove: EntityId::decode(bits), ..c }, if ok { Ok(()) } else { Err(ActionError::Malformed) })
    } else if verb == "femalify"@ {
        let (bits, ok) = packed_arg(arg);
        (Command { femalify: EntityId::decode(bits), ..c }, if ok { Ok(()) } else { Err(ActionError::Malformed) })
    } else {
        (c, Err(ActionError::Unhandled))
    }
}

/// A run of non-white-space characters ended by the end or by white space
/// is the leading token.
proof fn lemma_leading_token_word(w: Seq<char>, rest: Seq<char>)
    requires
        forall|i: int| 0 <= i < w.len() ==> !is_ws(#[trigger] w[i]),
        rest.len() == 0 || is_ws(rest[0]),
    ensures
        leading_token(w + rest) == w,
    decreases w.len(),
{
    if w.len() == 0 {
        assert(w + rest =~= rest);
    } else {
        assert((w + rest).drop_first() =~= w.drop_first() + rest);
        lemma_leading_token_word(w.drop_first(), rest);
        assert(seq![w[0]] + w.drop_first() =~= w);
    }
}

/// "<verb> <arg>", with neither word holding white space, reads as that
/// verb and that argument.
proof fn lemma_two_words(verb: Seq<char>, arg: Seq<char>)
    requires
        verb.len() > 0,
        arg.len() > 0,
        forall|i: int| 0 <= i < verb.len() ==> !is_ws(#[trigger] verb[i]),
        forall|i: int| 0 <= i < arg.len() ==> !is_ws(#[trigger] arg[i]),
    ensures
        first_word(verb + seq![' '] + arg) == verb,
        second_word(verb + seq![' '] + arg) == arg,
{
    let s = verb + seq![' '] + arg;
    assert(s[0] == verb[0]);
    assert(trim_start(s) == s);
    assert(s =~= verb + (seq![' '] + arg));
    lemma_leading_token_word(verb, seq![' '] + arg);
    let after = s.skip(verb.len() as int);
    assert(after =~= seq![' '] + arg);
    assert(after.drop_first() =~= arg);
    assert(trim_start(after) == trim_start(arg));
    assert(trim_start(arg) == arg);
    assert(arg =~= arg + Seq::<char>::empty());
    lemma_leading_token_word(arg, Seq::<char>::empty());
}

/// Digits are no white space.
proof fn lemma_decimal_no_ws(n: nat)
    ensures
        decimal(n).len() > 0,
        forall|i: int| 0 <= i < decimal(n).len() ==> !is_ws(#[trigger] decimal(n)[i]),
        forall|i: int| 0 <= i < decimal(n).len() ==> is_digit(#[trigger] decimal(n)[i]),
{
    lemma_decimal_digits(n);
}

/// Ordering a femalify by an id's text names that id: folding
/// "femalify <the id's packed bits in decimal>" into any command sets
/// `femalify` to that id, leaves every other field as it was, and reports
/// success.
pub proof fn lemma_femalify_names_the_id(c: Command, id: EntityId)
    ensures
        fold_action(c, "femalify "@ + decimal(id.bits() as nat)) == (Command { femalify: id, ..c }, Ok::<(), ActionError>(())),
{
    reveal_strlit("femalify ");
    reveal_strlit("femalify");
    reveal_strlit("advance_time");
    reveal_strlit("rest");
    reveal_strlit("stop");
    reveal_strlit("travel");
    reveal_strlit("choose");
    reveal_strlit("remove");
    let d = decimal(id.bits() as nat);
    lemma_decimal_no_ws(id.bits() as nat);
    let verb = "femalify"@;
    assert forall|i: int| 0 <= i < verb.len() implies !is_ws(#[trigger] verb[i]) by {}
    assert("femalify "@ + d =~= verb + seq![' '] + d);
    lemma_two_words(verb, d);
    id.lemma_text_round_trip();
    lemma_decimal_round_trip(id.bits());
    id.lemma_bits_round_trip();
}

/// Ordering a removal by an id's text names that id: folding
/// "remove <the id's packed bits in decimal>" into any command sets
/// `remove` to that id, leaves every other field as it was, and reports
/// success.
pub proof fn lemma_remove_names_the_id(c: Command, id: EntityId)
    ensures
        fold_action(c, "remove "@ + decimal(id.bits() as nat)) == (Command { remove: id, ..c }, Ok::<(), ActionError>(())),
{
    reveal_strlit("remove ");
    reveal_strlit("remove");
    reveal_strlit("advance_time");
    reveal_strlit("rest");
    reveal_strlit("stop");
    reveal_strlit("travel");
    reveal_strlit("choose");
    let d = decimal(id.bits() as nat);
    lemma_decimal_no_ws(id.bits() as nat);
    let verb = "remove"@;
    assert forall|i: int| 0 <= i < verb.len() implies !is_ws(#[trigger] verb[i]) by {}
    assert("remove "@ + d =~= verb + seq![' '] + d);
    lemma_two_words(verb, d);
    lemma_decimal_round_trip(id.bits());
    id.lemma_bits_round_trip();
}

/// Ordering travel to a cell by the cell's text heads there: folding
/// "travel <the cell's packed bits in decimal>" into any command, for any
/// cell but the zero one ("nowhere"), orders travel to that cell, leaves
/// every other field as it was, and reports success.
pub proof fn lemma_travel_heads_for_the_cell(c: Command, p: CellPos)
    requires
        p != (CellPos { x: 0, y: 0 }),
    ensures
        fold_action(c, "travel "@ + decimal(cell_bits(p) as nat)) == (Command {
            activity: Some(ActivityVerb::Travel),
            destination: p,
            ..c
        }, Ok::<(), ActionError>(())),
{
    reveal_strlit("travel ");
    reveal_strlit("travel");
    reveal_strlit("advance_time");
    reveal_strlit("rest");
    reveal_strlit("stop");
    let d = decimal(cell_bits(p) as nat);
    lemma_decimal_no_ws(cell_bits(p) as nat);
    let verb = "travel"@;
    assert forall|i: int| 0 <= i < verb.len() implies !is_ws(#[trigger] verb[i]) by {}
    assert("travel "@ + d =~= verb + seq![' '] + d);
    lemma_two_words(verb, d);
    lemma_decimal_round_trip(cell_bits(p));
    <CellPos as crate::entities::uvars::Bits64>::lemma_round_trip(p);
}

/// Choosing by number picks that choice: folding "choose <n>" into any
/// command, for any `n` that fits 32 bits, sets the choice to `n`, leaves
/// every other field as it was, and reports success.
pub proof fn lemma_choose_picks_the_number(c: Command, n: u32)
    ensures
        fold_action(c, "choose "@ + decimal(n as nat)) == (Command { choose: Some(n), ..c }, Ok::<(), ActionError>(())),
{
    reveal_strlit("choose ");
    reveal_strlit("choose");
    reveal_strlit("advance_time");
    reveal_strlit("rest");
    reveal_strlit("stop");
    reveal_strlit("travel");
    let d = decimal(n as nat);
    lemma_decimal_no_ws(n as nat);
    let verb = "choose"@;
    assert forall|i: int| 0 <= i < verb.len() implies !is_ws(#[trigger] verb[i]) by {}
    assert("choose "@ + d =~= verb + seq![' '] + d);
    lemma_two_words(verb, d);
    lemma_decimal_round_trip(n as u64);
}

/// Splits off the first word of `s` from position `from`: the word and
/// where the text after it starts.
fn next_word(s: &Vec<char>, from: usize) -> (r: (Vec<char>, usize))
    requires
        from <= s@.len(),
    ensures
        r.0@ == first_word(s@.skip(from as int)),
        from <= r.1 <= s@.len(),
        s@.skip(r.1 as int) == after_first_word(s@.skip(from as int)),
{
    let ghost t = s@.skip(from as int);
    let mut i: usize = from;
    assert(s@.skip(i as int) =~= t);
    while i < s.len() && is_whitespace(s[i])
        invariant
            from <= i <= s@.len(),
            trim_start(t) == trim_start(s@.skip(i as int)),
        decreases s@.len() - i,
    {
        assert(s@.skip(i as int).drop_first() =~= s@.skip(i + 1));
        i = i + 1;
    }
    let ghost start = i;
    assert(trim_start(s@.skip(i as int)) == s@.skip(i as int));
    let mut word: Vec<char> = Vec::new();
    while i < s.len() && !is_whitespace(s[i])
        invariant
            start <= i <= s@.len(),
            trim_start(t) == s@.skip(start as int),
            word@ == s@.subrange(start as int, i as int),
            leading_token(s@.skip(start as int)) == word@ + leading_token(s@.skip(i as int)),
        decreases s@.len() - i,
    {
        assert(s@.skip(i as int).drop_first() =~= s@.skip(i + 1));
        assert(s@.skip(i as int)[0] == s@[i as int]);
        word.push(s[i]);
        assert(word@ =~= s@.subrange(start as int, i + 1));
        assert(word@ + leading_token(s@.skip(i + 1)) =~= s@.subrange(start as int, i as int) + (seq![s@[i as int]] + leading_token(s@.skip(i + 1))));
        i = i + 1;
    }
    assert(leading_token(s@.skip(i as int)) =~= Seq::<char>::empty());
    assert(word@ =~= first_word(t));
    assert(s@.skip(i as int) =~= trim_start(t).skip(word@.len() as int));
    (word, i)
}

/// Whether `w` spells `text`.
fn word_is(w: &Vec<char>, text: &str) -> (b: bool)
    ensures
        b == (w@ == text@),
{
    let t = crate::util::decimal::chars_of(text);
    if w.len() != t.len() {
        return false;
    }
    let mut i: usize = 0;
    while i < w.len()
        invariant
            w@.len() == t@.len(),
            t@ == text@,
            i <= w@.len(),
            forall|j: int| 0 <= j < i ==> w@[j] == t@[j],
        decreases w@.len() - i,
    {
        if w[i] != t[i] {
            return false;
        }
        i = i + 1;
    }
    assert(w@ =~= t@);
    true
}

impl Command {
    /// The command that requests one day to pass and nothing else.
    pub fn advance_time() -> (c: Command)
        ensures
            c == (Command { advance_time: true, ..idle_command() }),
    {
        let mut this = Command::default();
        this.advance_time = true;
        this
    }

    /// Folds one UI action into the command: several per tick merge, each
    /// setting its own fields. A malformed argument reads as the zero value
    /// ("nobody", "nowhere") and is reported; so is an unknown verb, which
    /// sets nothing. Travel to nowhere orders nothing, and a malformed
    /// choice picks nothing.
    pub fn parse(&mut self, action: &str) -> (r: Result<(), ActionError>)
        ensures
            (*final(self), r) == fold_action(*old(self), action@),
    {
        let text = crate::util::decimal::chars_of(action);
        let (verb, rest) = next_word(&text, 0);
        let (arg, _) = next_word(&text, rest);
        proof {
            assert(text@.skip(0) =~= action@);
        }
        if word_is(&verb, "advance_time") {
            self.advance_time = true;
            Ok(())
        } else if word_is(&verb, "rest") {
            self.activity = Some(ActivityVerb::Rest);
            Ok(())
        } else if word_is(&verb, "stop") {
            self.activity = Some(ActivityVerb::Idle);
            Ok(())
        } else if word_is(&verb, "travel") {
            let parsed = parse_u64(arg.as_slice());
            let (bits, ok) = match parsed {
                Some(b) => (b, true),
                None => (0u64, false),
            };
            let destination = <CellPos as crate::entities::uvars::Bits64>::from_bits(bits);
            if destination != CellPos::default() {
                self.activity = Some(ActivityVerb::Travel);
                self.destination = destination;
            }
            if ok {
                Ok(())
            } else {
                Err(ActionError::Malformed)
            }
        } else if word_is(&verb, "choose") {
            match parse_u64(arg.as_slice()) {
                Some(n) => {
                    if n <= 0xffff_ffffu64 {
                        self.choose = Some(n as u32);
                        Ok(())
                    } else {
                        Err(ActionError::Malformed)
                    }
                },
                None => Err(ActionError::Malformed),
            }
        } else if word_is(&verb, "remove") {
            let (bits, ok) = match parse_u64(arg.as_slice()) {
                Some(b) => (b, true),
                None => (0u64, false),
            };
            self.remove = EntityId::from_bits(bits);
            if ok {
                Ok(())
            } else {
                Err(ActionError::Malformed)
            }
        } else if word_is(&verb, "femalify") {
            let (bits, ok) = match parse_u64(arg.as_slice()) {
                Some(b) => (b, true),
                None => (0u64, false),
            };
            self.femalify = EntityId::from_bits(bits);
            if ok {
                Ok(())
            } else {
                Err(ActionError::Malformed)
            }
        } else {
            Err(ActionError::Unhandled)
        }
    }
}

} // verus!
