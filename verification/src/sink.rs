//! Log-line rendering for structural (JSON-lines) logging.
//!
//! In structural mode each complete message contributes exactly one log
//! line: the compact re-serialization of its body when the body parses
//! as JSON, the body text itself otherwise, a newline appended either
//! way. Raw mode needs no rendering — chunks are appended verbatim by
//! the channel.

use vstd::prelude::*;
use vstd::string::StringExecFns;

verus! {

/// The two logging modes, chosen once at startup.
#[derive(Clone, Copy, PartialEq, Eq, Structural, Debug)]
pub enum LogMode {
    /// Every chunk read is appended to the log verbatim.
    Raw,
    /// Only complete messages are logged, one JSON document per line.
    JsonLines,
}

/// Whether serde_json accepts the text as a JSON document: a function of
/// the text alone.
pub uninterp spec fn is_json(text: Seq<char>) -> bool;

/// The compact serialization of the JSON value the text denotes: a
/// function of the text alone, meaningful when `is_json(text)` holds.
pub uninterp spec fn json_compact_of(text: Seq<char>) -> Seq<char>;

/// Relies on `serde_json::from_str::<Value>` and `serde_json::to_string`:
/// parses the text as a generic JSON value and re-serializes it
/// compactly. Serializing a `Value` does not fail (its maps are keyed by
/// strings). The compact form holds no raw newline — the compact
/// formatter emits no whitespace and escapes control characters inside
/// strings — and parses back to an equal value, which re-serializes to
/// the same text. The last fact needs the `float_roundtrip` feature,
/// which this crate enables: it makes float parsing correctly rounded,
/// so the shortest-form float output re-parses to the same number.
#[verifier::external_body]
fn json_reserialize(text: &str) -> (r: Option<String>)
    ensures
        r is Some <==> is_json(text@),
        r is Some ==> r->Some_0@ == json_compact_of(text@),
        r is Some ==> is_json(r->Some_0@) && json_compact_of(r->Some_0@) == r->Some_0@,
        r is Some ==> forall|i: int| 0 <= i < r->Some_0@.len() ==> r->Some_0@[i] != '\n',
{
    match serde_json::from_str::<serde_json::Value>(text) {
        Ok(v) => serde_json::to_string(&v).ok(),
        Err(_) => None,
    }
}

/// Whether the text is accepted as a JSON document.
pub fn text_is_json(text: &str) -> (r: bool)
    ensures
        r == is_json(text@),
{
    json_reserialize(text).is_some()
}

/// The log line structural mode appends for a message body text.
pub open spec fn rendered_line(text: Seq<char>) -> Seq<char> {
    if is_json(text) {
        json_compact_of(text) + seq!['\n']
    } else {
        text + seq!['\n']
    }
}

/// Renders the single log line for one message body. A body that parses
/// as JSON yields its compact form and a final newline — one line, whose
/// content re-parses and re-serializes to itself; any other body yields
/// the body text and a final newline, and is reported no further.
pub fn render_log_line(text: &str) -> (line: String)
    ensures
        line@ == rendered_line(text@),
        is_json(text@) ==> ({
            let c = json_compact_of(text@);
            &&& line@.len() == c.len() + 1
            &&& line@[line@.len() - 1] == '\n'
            &&& (forall|i: int| 0 <= i < c.len() ==> line@[i] != '\n')
            &&& is_json(c)
            &&& json_compact_of(c) == c
        }),
{
    let parsed = json_reserialize(text);
    match parsed {
        Some(compact) => {
            let mut line = compact;
            line.append("\n");
            proof {
                reveal_strlit("\n");
                assert(line@ =~= rendered_line(text@));
            }
            line
        },
        None => {
            let mut line = text.to_owned();
            line.append("\n");
            proof {
                reveal_strlit("\n");
                assert(line@ =~= rendered_line(text@));
            }
            line
        },
    }
}

} // verus!
