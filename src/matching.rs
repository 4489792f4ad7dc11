//! What a sensor does with the rules of its level: a host rule fires when its
//! payload, a regular expression, matches a file's content; a network rule
//! fires on the source and destination addresses of a frame. Also the two
//! messages a sensor sends.
use vstd::prelude::*;

use crate::codec::{delim_1, delim_3, join_spec, join_with, same_text, views};
use crate::rules::{find_key, first_value, pair_views, RuleRecord, RuleView};

verus! {

/// What compiling `pattern` as a regular expression and matching it against
/// `text` gives: `None` when the pattern does not compile, else whether it
/// matches somewhere in the text.
pub uninterp spec fn regex_outcome(pattern: Seq<char>, text: Seq<char>) -> Option<bool>;

/// Relies on `regex::Regex::new` and `regex::Regex::is_match`: an error for a
/// pattern that does not compile, else whether the pattern matches somewhere in
/// the text; the outcome depends on the two texts alone.
#[verifier::external_body]
fn regex_match(pattern: &str, text: &str) -> (r: Option<bool>)
    ensures
        r == regex_outcome(pattern@, text@),
{
    match regex::Regex::new(pattern) {
        Ok(re) => Some(re.is_match(text)),
        Err(_) => None,
    }
}

/// Some field has this key and this value.
pub open spec fn has_field(fields: Seq<(Seq<char>, Seq<char>)>, key: Seq<char>, value: Seq<char>) -> bool {
    exists|i: int| 0 <= i < fields.len() && fields[i] == (key, value)
}

fn has_field_exec(fields: &Vec<(String, String)>, key: &str, value: &str) -> (r: bool)
    ensures
        r == has_field(pair_views(fields@), key@, value@),
{
    let ghost fv = pair_views(fields@);
    let mut i: usize = 0;
    while i < fields.len()
        invariant
            i <= fields@.len(),
            fv == pair_views(fields@),
            forall|j: int| 0 <= j < i ==> fv[j] != (key@, value@),
        decreases fields@.len() - i,
    {
        if same_text(fields[i].0.as_str(), key) && same_text(fields[i].1.as_str(), value) {
            assert(fv[i as int] == (key@, value@));
            return true;
        }
        i = i + 1;
    }
    false
}

/// A host rule fires on a content when its payload compiles and matches it.
pub open spec fn host_fires(rule: RuleView, content: Seq<char>) -> bool {
    match first_value(rule.fields, "payload"@) {
        Some(p) => regex_outcome(p, content) == Some(true),
        None => false,
    }
}

/// Whether a host rule fires on a file's content: its payload, compiled as a
/// regular expression, matches somewhere in the content. A rule without a
/// payload, or whose payload does not compile, never fires.
pub fn host_rule_matches(rule: &RuleRecord, content: &str) -> (r: bool)
    ensures
        r == host_fires(rule@, content@),
{
    match find_key(&rule.fields, "payload") {
        Some(i) => rule_fired(regex_match(rule.fields[i].1.as_str(), content)),
        None => false,
    }
}

/// Whether the outcome of matching a rule's payload is a match.
pub fn rule_fired(outcome: Option<bool>) -> (r: bool)
    ensures
        r == (outcome == Some(true)),
{
    match outcome {
        Some(b) => b,
        None => false,
    }
}

/// A network rule fires on a frame when its `src` field is the frame's
/// source and its `dst` field the destination or a blank, or when its `dst`
/// field is the destination and its `src` field a blank.
pub open spec fn net_fires(fields: Seq<(Seq<char>, Seq<char>)>, src: Seq<char>, dst: Seq<char>) -> bool {
    if has_field(fields, "src"@, src) {
        has_field(fields, "dst"@, dst) || has_field(fields, "dst"@, " "@)
    } else {
        has_field(fields, "dst"@, dst) && has_field(fields, "src"@, " "@)
    }
}

/// Whether a network rule fires on a frame with these source and destination
/// addresses (written as lowercase hexadecimal bytes joined by `:`).
pub fn net_rule_matches(rule: &RuleRecord, src: &str, dst: &str) -> (r: bool)
    ensures
        r == net_fires(rule@.fields, src@, dst@),
{
    if has_field_exec(&rule.fields, "src", src) {
        has_field_exec(&rule.fields, "dst", dst) || has_field_exec(&rule.fields, "dst", " ")
    } else {
        has_field_exec(&rule.fields, "dst", dst) && has_field_exec(&rule.fields, "src", " ")
    }
}

/// The handshake a sensor sends: `name[:1:]level[:1:]user`.
pub fn handshake_message(name: &str, level: &str, user: &str) -> (r: String)
    ensures
        r@ == join_spec(seq![name@, level@, user@], delim_1()),
{
    let mut parts: Vec<String> = Vec::new();
    parts.push(String::from_str(name));
    parts.push(String::from_str(level));
    parts.push(String::from_str(user));
    assert(views(parts@) =~= seq![name@, level@, user@]);
    join_with(&parts, "[:1:]")
}

/// The report a sensor sends when a rule fires:
/// `event[:3:]<hash>[:3:]<unix time>`, then `[:3:]<context>` when there is one.
pub fn event_report(rule_hash: &str, unix_time: &str, context: &str) -> (r: String)
    ensures
        context@.len() == 0 ==> r@ == join_spec(seq!["event"@, rule_hash@, unix_time@], delim_3()),
        context@.len() > 0 ==> r@ == join_spec(
            seq!["event"@, rule_hash@, unix_time@, context@],
            delim_3(),
        ),
{
    let mut parts: Vec<String> = Vec::new();
    parts.push(String::from_str("event"));
    parts.push(String::from_str(rule_hash));
    parts.push(String::from_str(unix_time));
    if !context.is_empty() {
        parts.push(String::from_str(context));
        assert(views(parts@) =~= seq!["event"@, rule_hash@, unix_time@, context@]);
    } else {
        assert(views(parts@) =~= seq!["event"@, rule_hash@, unix_time@]);
    }
    join_with(&parts, "[:3:]")
}

} // verus!
