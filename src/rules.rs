//! The rule store: the one-line text form of a rule, the index that loading a
//! rules file builds, and the edits that adding and deleting a rule make.
use vstd::prelude::*;

use crate::codec::{
    all_free_of, chars_of, lemma_join_front, lemma_join_split, lemma_split_pieces_free, delim_1, delim_2, field_safe, has_sub, join_spec, join_with,
    lemma_delims_head_unique, lemma_pair_free, lemma_safe_free, lemma_split_concat,
    lemma_split_free, lemma_split_join, newline, occurs_at, opener, same_text, slice_string,
    split_on, split_spec, views,
};
use crate::digest::{is_hex_digit, lemma_hex_digits_only, sha256_hex, sha256_hex_spec};

verus! {

/// One stored rule: its hash and its other key/value pairs, in file order.
pub struct RuleRecord {
    pub hash: String,
    pub fields: Vec<(String, String)>,
}

/// What a rule record holds, as text.
pub struct RuleView {
    pub hash: Seq<char>,
    pub fields: Seq<(Seq<char>, Seq<char>)>,
}

/// The texts of a list of key/value pairs.
pub open spec fn pair_views(v: Seq<(String, String)>) -> Seq<(Seq<char>, Seq<char>)> {
    v.map_values(|p: (String, String)| (p.0@, p.1@))
}

impl View for RuleRecord {
    type V = RuleView;

    open spec fn view(&self) -> RuleView {
        RuleView { hash: self.hash@, fields: pair_views(self.fields@) }
    }
}

/// The views of a list of rule records.
pub open spec fn record_views(v: Seq<RuleRecord>) -> Seq<RuleView> {
    v.map_values(|r: RuleRecord| r@)
}

/// A loaded rules file: the rules of each of the two levels, in file order.
pub struct RulesIndex {
    pub net: Vec<RuleRecord>,
    pub host: Vec<RuleRecord>,
}

pub open spec fn key_level() -> Seq<char> {
    "level"@
}

pub open spec fn key_hash() -> Seq<char> {
    "hash"@
}

pub open spec fn key_name() -> Seq<char> {
    "name"@
}

pub open spec fn key_payload() -> Seq<char> {
    "payload"@
}

/// The level of network sensors and their rules.
pub open spec fn level_net() -> Seq<char> {
    "net"@
}

/// The level of host sensors and their rules.
pub open spec fn level_host() -> Seq<char> {
    "host"@
}

/// The text of one key/value pair.
pub open spec fn pair_text(k: Seq<char>, v: Seq<char>) -> Seq<char> {
    k + delim_1() + v
}

/// A pair's text holds exactly one pair delimiter.
pub open spec fn pair_ok(p: Seq<char>) -> bool {
    split_spec(p, delim_1()).len() == 2
}

/// The key and the value of a pair's text.
pub open spec fn pair_of(p: Seq<char>) -> (Seq<char>, Seq<char>) {
    (split_spec(p, delim_1())[0], split_spec(p, delim_1())[1])
}

/// The value of the first pair with the given key.
pub open spec fn first_value(ps: Seq<(Seq<char>, Seq<char>)>, key: Seq<char>) -> Option<Seq<char>>
    decreases ps.len(),
{
    if ps.len() == 0 {
        None
    } else {
        match first_value(ps.drop_last(), key) {
            Some(v) => Some(v),
            None => if ps.last().0 == key {
                Some(ps.last().1)
            } else {
                None
            },
        }
    }
}

/// The pairs whose key is neither `level` nor `hash`, in order.
pub open spec fn other_fields(ps: Seq<(Seq<char>, Seq<char>)>) -> Seq<(Seq<char>, Seq<char>)>
    decreases ps.len(),
{
    if ps.len() == 0 {
        Seq::empty()
    } else if ps.last().0 == key_level() || ps.last().0 == key_hash() {
        other_fields(ps.drop_last())
    } else {
        other_fields(ps.drop_last()).push(ps.last())
    }
}

/// A rule line read as its level and its record: every pair well formed, and
/// a `level` and a `hash` among them (the first of each counts).
pub open spec fn parse_line_spec(line: Seq<char>) -> Option<(Seq<char>, RuleView)> {
    let raw = split_spec(line, delim_2());
    if forall|k: int| 0 <= k < raw.len() ==> pair_ok(#[trigger] raw[k]) {
        let ps = raw.map_values(|p: Seq<char>| pair_of(p));
        match (first_value(ps, key_level()), first_value(ps, key_hash())) {
            (Some(l), Some(h)) => Some((l, RuleView { hash: h, fields: other_fields(ps) })),
            _ => None,
        }
    } else {
        None
    }
}

/// The records of the given level among these lines, in order; lines that
/// do not read as a rule are passed over.
pub open spec fn rules_at(lines: Seq<Seq<char>>, level: Seq<char>) -> Seq<RuleView>
    decreases lines.len(),
{
    if lines.len() == 0 {
        Seq::empty()
    } else {
        let rest = rules_at(lines.drop_last(), level);
        match parse_line_spec(lines.last()) {
            Some((l, r)) => if l == level {
                rest.push(r)
            } else {
                rest
            },
            None => rest,
        }
    }
}

/// The records of a level that loading a rules file gives.
pub open spec fn load_spec(content: Seq<char>, level: Seq<char>) -> Seq<RuleView> {
    rules_at(split_spec(content, newline()), level)
}

proof fn lemma_first_value_extend(ps: Seq<(Seq<char>, Seq<char>)>, key: Seq<char>, j: int)
    requires
        0 <= j <= ps.len(),
        first_value(ps.subrange(0, j), key) is Some,
    ensures
        first_value(ps, key) == first_value(ps.subrange(0, j), key),
    decreases ps.len() - j,
{
    if j < ps.len() {
        assert(ps.drop_last().subrange(0, j) =~= ps.subrange(0, j));
        lemma_first_value_extend(ps.drop_last(), key, j);
    } else {
        assert(ps.subrange(0, j) =~= ps);
    }
}

/// Position of the first pair with the given key.
pub(crate) fn find_key(ps: &Vec<(String, String)>, key: &str) -> (r: Option<usize>)
    ensures
        match r {
            Some(i) => i < ps@.len() && first_value(pair_views(ps@), key@) == Some(ps@[i as int].1@),
            None => first_value(pair_views(ps@), key@) is None,
        },
{
    let ghost pv = pair_views(ps@);
    let mut i: usize = 0;
    while i < ps.len()
        invariant
            i <= ps@.len(),
            pv == pair_views(ps@),
            first_value(pv.subrange(0, i as int), key@) is None,
        decreases ps@.len() - i,
    {
        assert(pv.subrange(0, i + 1).drop_last() =~= pv.subrange(0, i as int));
        if same_text(ps[i].0.as_str(), key) {
            proof {
                lemma_first_value_extend(pv, key@, i + 1);
            }
            return Some(i);
        }
        i = i + 1;
    }
    assert(pv.subrange(0, i as int) =~= pv);
    None
}

/// The pairs other than `level` and `hash`, in order.
fn other_pairs(ps: &Vec<(String, String)>) -> (r: Vec<(String, String)>)
    ensures
        pair_views(r@) == other_fields(pair_views(ps@)),
{
    let ghost pv = pair_views(ps@);
    let mut out: Vec<(String, String)> = Vec::new();
    let mut i: usize = 0;
    while i < ps.len()
        invariant
            i <= ps@.len(),
            pv == pair_views(ps@),
            pair_views(out@) == other_fields(pv.subrange(0, i as int)),
        decreases ps@.len() - i,
    {
        assert(pv.subrange(0, i + 1).drop_last() =~= pv.subrange(0, i as int));
        let k = &ps[i].0;
        if !same_text(k.as_str(), "level") && !same_text(k.as_str(), "hash") {
            let ghost before = out@;
            out.push((ps[i].0.clone(), ps[i].1.clone()));
            assert(pair_views(out@) =~= pair_views(before).push(pv[i as int]));
        }
        i = i + 1;
    }
    assert(pv.subrange(0, i as int) =~= pv);
    out
}

/// Reads one line of a rules file as its level and its record.
pub fn parse_rule_line(line: &str) -> (r: Option<(String, RuleRecord)>)
    ensures
        match r {
            Some((l, rec)) => parse_line_spec(line@) == Some((l@, rec@)),
            None => parse_line_spec(line@) is None,
        },
{
    proof {
        reveal_strlit("[:1:]");
        reveal_strlit("[:2:]");
    }
    let raw = split_on(line, "[:2:]");
    let ghost rv = views(raw@);
    let ghost ps_spec = rv.map_values(|p: Seq<char>| pair_of(p));
    let mut ps: Vec<(String, String)> = Vec::new();
    let mut i: usize = 0;
    while i < raw.len()
        invariant
            i <= raw@.len(),
            rv == views(raw@),
            rv == split_spec(line@, delim_2()),
            ps_spec == rv.map_values(|p: Seq<char>| pair_of(p)),
            forall|k: int| 0 <= k < i ==> pair_ok(#[trigger] rv[k]),
            pair_views(ps@) == ps_spec.subrange(0, i as int),
        decreases raw@.len() - i,
    {
        proof {
            reveal_strlit("[:1:]");
        }
        let mut parts = split_on(raw[i].as_str(), "[:1:]");
        if parts.len() != 2 {
            assert(!pair_ok(rv[i as int]));
            return None;
        }
        let ghost pv = views(parts@);
        let value = parts.pop().unwrap();
        let key = parts.pop().unwrap();
        assert(key@ == pv[0] && value@ == pv[1]);
        let ghost before = ps@;
        ps.push((key, value));
        assert(pair_views(ps@) =~= pair_views(before).push((pv[0], pv[1])));
        assert(ps_spec.subrange(0, i + 1) =~= ps_spec.subrange(0, i as int).push(ps_spec[i as int]));
        i = i + 1;
    }
    assert(ps_spec.subrange(0, i as int) =~= ps_spec);
    let li = find_key(&ps, "level");
    let hi = find_key(&ps, "hash");
    match (li, hi) {
        (Some(a), Some(b)) => {
            let level = ps[a].1.clone();
            let hash = ps[b].1.clone();
            let fields = other_pairs(&ps);
            Some((level, RuleRecord { hash, fields }))
        },
        _ => None,
    }
}

/// Loads a rules file: the records of each level, in file order. Lines that
/// do not read as a rule (blank ones among them) are passed over.
pub fn get_rules_map(rules_content: &str) -> (r: RulesIndex)
    ensures
        record_views(r.net@) == load_spec(rules_content@, level_net()),
        record_views(r.host@) == load_spec(rules_content@, level_host()),
{
    proof {
        reveal_strlit("\n");
    }
    let lines = split_on(rules_content, "\n");
    let ghost lv = views(lines@);
    let mut net: Vec<RuleRecord> = Vec::new();
    let mut host: Vec<RuleRecord> = Vec::new();
    let mut i: usize = 0;
    while i < lines.len()
        invariant
            i <= lines@.len(),
            lv == views(lines@),
            lv == split_spec(rules_content@, newline()),
            record_views(net@) == rules_at(lv.subrange(0, i as int), level_net()),
            record_views(host@) == rules_at(lv.subrange(0, i as int), level_host()),
        decreases lines@.len() - i,
    {
        let ghost sub = lv.subrange(0, i + 1);
        assert(sub.drop_last() =~= lv.subrange(0, i as int));
        assert(sub.last() == lines@[i as int]@);
        proof {
            reveal_strlit("net");
            reveal_strlit("host");
            assert(level_net().len() != level_host().len());
        }
        match parse_rule_line(lines[i].as_str()) {
            Some((level, rec)) => {
                if same_text(level.as_str(), "net") {
                    let ghost before = net@;
                    net.push(rec);
                    assert(record_views(net@) =~= record_views(before).push(net@.last()@));
                } else if same_text(level.as_str(), "host") {
                    let ghost before = host@;
                    host.push(rec);
                    assert(record_views(host@) =~= record_views(before).push(host@.last()@));
                }
            },
            None => {},
        }
        i = i + 1;
    }
    assert(lv.subrange(0, i as int) =~= lv);
    RulesIndex { net, host }
}

/// The first five characters of a text, or all of it when it is shorter.
pub open spec fn prefix5(s: Seq<char>) -> Seq<char> {
    if s.len() >= 5 {
        s.subrange(0, 5)
    } else {
        s
    }
}

/// The hash that names a rule: the first five lowercase hexadecimal digits of
/// the SHA-256 digest of its name followed by its payload.
pub open spec fn rule_hash_spec(name: Seq<char>, payload: Seq<char>) -> Seq<char> {
    prefix5(sha256_hex_spec(name + payload))
}

/// The hash of the rule with this name and payload.
pub fn rule_hash(rule_name: &str, rule_payload: &str) -> (r: String)
    ensures
        r@ == rule_hash_spec(rule_name@, rule_payload@),
{
    let mut joined = String::from_str(rule_name);
    joined.append(rule_payload);
    let hex = sha256_hex(joined.as_str());
    let cs = chars_of(hex.as_str());
    slice_string(cs.as_slice(), 0, 5)
}

/// The pair texts of a rule line: level, hash, name and payload, then the other fields.
pub open spec fn rule_pairs(
    level: Seq<char>,
    hash: Seq<char>,
    name: Seq<char>,
    payload: Seq<char>,
    fields: Seq<(Seq<char>, Seq<char>)>,
) -> Seq<Seq<char>> {
    seq![
        pair_text(key_level(), level),
        pair_text(key_hash(), hash),
        pair_text(key_name(), name),
        pair_text(key_payload(), payload),
    ] + fields.map_values(|f: (Seq<char>, Seq<char>)| pair_text(f.0, f.1))
}

/// The line that stores a rule, without its line break.
pub open spec fn rule_line_spec(
    level: Seq<char>,
    hash: Seq<char>,
    name: Seq<char>,
    payload: Seq<char>,
    fields: Seq<(Seq<char>, Seq<char>)>,
) -> Seq<char> {
    join_spec(rule_pairs(level, hash, name, payload, fields), delim_2())
}

fn pair_string(k: &str, v: &str) -> (r: String)
    ensures
        r@ == pair_text(k@, v@),
{
    let mut r = String::from_str(k);
    r.append("[:1:]");
    r.append(v);
    r
}

/// The text to append to a rules file to store a new rule: its line, with the
/// hash computed from its name and payload, and a line break.
pub fn add_rule(
    rule_level: &str,
    rule_name: &str,
    rule_payload: &str,
    rule_fields: &Vec<(String, String)>,
) -> (r: String)
    ensures
        r@ == rule_line_spec(
            rule_level@,
            rule_hash_spec(rule_name@, rule_payload@),
            rule_name@,
            rule_payload@,
            pair_views(rule_fields@),
        ) + newline(),
{
    let hash = rule_hash(rule_name, rule_payload);
    let mut parts: Vec<String> = Vec::new();
    parts.push(pair_string("level", rule_level));
    parts.push(pair_string("hash", hash.as_str()));
    parts.push(pair_string("name", rule_name));
    parts.push(pair_string("payload", rule_payload));
    let ghost fv = pair_views(rule_fields@);
    let ghost head = views(parts@);
    let mut i: usize = 0;
    while i < rule_fields.len()
        invariant
            i <= rule_fields@.len(),
            fv == pair_views(rule_fields@),
            head.len() == 4,
            views(parts@) == head + fv.subrange(0, i as int).map_values(
                |f: (Seq<char>, Seq<char>)| pair_text(f.0, f.1),
            ),
        decreases rule_fields@.len() - i,
    {
        let p = pair_string(rule_fields[i].0.as_str(), rule_fields[i].1.as_str());
        let ghost before = views(parts@);
        parts.push(p);
        assert(views(parts@) =~= before.push(p@));
        assert(fv.subrange(0, i + 1).map_values(|f: (Seq<char>, Seq<char>)| pair_text(f.0, f.1))
            =~= fv.subrange(0, i as int).map_values(
            |f: (Seq<char>, Seq<char>)| pair_text(f.0, f.1),
        ).push(pair_text(fv[i as int].0, fv[i as int].1)));
        i = i + 1;
    }
    assert(fv.subrange(0, i as int) =~= fv);
    assert(views(parts@) =~= rule_pairs(
        rule_level@,
        hash@,
        rule_name@,
        rule_payload@,
        fv,
    ));
    let mut line = join_with(&parts, "[:2:]");
    line.append("\n");
    line
}

/// A text with neither a `[` nor a line break is safe as a field.
pub proof fn lemma_plain_safe(t: Seq<char>)
    requires
        forall|i: int| 0 <= i < t.len() ==> #[trigger] t[i] != '[' && t[i] != '\n',
    ensures
        field_safe(t),
{
    reveal_strlit("[:");
    reveal_strlit("\n");
    if has_sub(t, opener()) {
        let i = choose|i: int| occurs_at(t, opener(), i);
        assert(t.subrange(i, i + 2)[0] == t[i]);
    }
    if has_sub(t, newline()) {
        let i = choose|i: int| occurs_at(t, newline(), i);
        assert(t.subrange(i, i + 1)[0] == t[i]);
    }
}

/// The keys and level names of the rule format are safe fields, and all differ.
pub proof fn lemma_words_safe()
    ensures
        field_safe(key_level()),
        field_safe(key_hash()),
        field_safe(key_name()),
        field_safe(key_payload()),
        field_safe(level_net()),
        field_safe(level_host()),
        key_level() != key_hash(),
        key_name() != key_level(),
        key_name() != key_hash(),
        key_payload() != key_level(),
        key_payload() != key_hash(),
        level_net() != level_host(),
{
    reveal_strlit("level");
    reveal_strlit("hash");
    reveal_strlit("name");
    reveal_strlit("payload");
    reveal_strlit("net");
    reveal_strlit("host");
    lemma_plain_safe(key_level());
    lemma_plain_safe(key_hash());
    lemma_plain_safe(key_name());
    lemma_plain_safe(key_payload());
    lemma_plain_safe(level_net());
    lemma_plain_safe(level_host());
    assert(key_name()[0] != key_hash()[0]);
    assert(key_payload().len() == 7);
    assert(key_level().len() == 5);
    assert(level_net().len() != level_host().len());
}

/// A rule's hash is a safe field.
pub proof fn lemma_rule_hash_safe(name: Seq<char>, payload: Seq<char>)
    ensures
        field_safe(rule_hash_spec(name, payload)),
{
    let b = crate::digest::sha256_of(vstd::utf8::encode_utf8(name + payload));
    lemma_hex_digits_only(b);
    let h = rule_hash_spec(name, payload);
    assert forall|i: int| 0 <= i < h.len() implies #[trigger] h[i] != '[' && h[i] != '\n' by {
        assert(h[i] == sha256_hex_spec(name + payload)[i]);
        assert(is_hex_digit(h[i]));
    }
    lemma_plain_safe(h);
}

proof fn lemma_first_value_at(ps: Seq<(Seq<char>, Seq<char>)>, key: Seq<char>, j: int)
    requires
        0 <= j < ps.len(),
        ps[j].0 == key,
        forall|i: int| 0 <= i < j ==> (#[trigger] ps[i]).0 != key,
    ensures
        first_value(ps, key) == Some(ps[j].1),
    decreases ps.len(),
{
    if j < ps.len() - 1 {
        lemma_first_value_at(ps.drop_last(), key, j);
    } else {
        lemma_first_value_none(ps.drop_last(), key);
    }
}

proof fn lemma_first_value_none(ps: Seq<(Seq<char>, Seq<char>)>, key: Seq<char>)
    requires
        forall|i: int| 0 <= i < ps.len() ==> (#[trigger] ps[i]).0 != key,
    ensures
        first_value(ps, key) is None,
    decreases ps.len(),
{
    if ps.len() > 0 {
        lemma_first_value_none(ps.drop_last(), key);
    }
}

proof fn lemma_other_fields_append(
    a: Seq<(Seq<char>, Seq<char>)>,
    b: Seq<(Seq<char>, Seq<char>)>,
)
    requires
        forall|i: int|
            0 <= i < b.len() ==> (#[trigger] b[i]).0 != key_level() && b[i].0 != key_hash(),
    ensures
        other_fields(a + b) == other_fields(a) + b,
    decreases b.len(),
{
    if b.len() == 0 {
        assert(a + b =~= a);
        assert(other_fields(a) + b =~= other_fields(a));
    } else {
        assert((a + b).drop_last() =~= a + b.drop_last());
        lemma_other_fields_append(a, b.drop_last());
        assert(other_fields(a) + b =~= (other_fields(a) + b.drop_last()).push(b.last()));
    }
}

/// The fields that a stored rule line reads back with.
pub open spec fn stored_fields(
    name: Seq<char>,
    payload: Seq<char>,
    fields: Seq<(Seq<char>, Seq<char>)>,
) -> Seq<(Seq<char>, Seq<char>)> {
    seq![(key_name(), name), (key_payload(), payload)] + fields
}

/// Extra fields that a rule line can carry: safe keys and values, and no key
/// that would shadow the level or the hash.
pub open spec fn extra_fields_ok(fields: Seq<(Seq<char>, Seq<char>)>) -> bool {
    forall|k: int|
        0 <= k < fields.len() ==> field_safe((#[trigger] fields[k]).0) && field_safe(fields[k].1)
            && fields[k].0 != key_level() && fields[k].0 != key_hash()
}

/// A rule line reads back as the rule that was written.
pub proof fn lemma_rule_line_parses(
    level: Seq<char>,
    hash: Seq<char>,
    name: Seq<char>,
    payload: Seq<char>,
    fields: Seq<(Seq<char>, Seq<char>)>,
)
    requires
        field_safe(level),
        field_safe(hash),
        field_safe(name),
        field_safe(payload),
        extra_fields_ok(fields),
    ensures
        parse_line_spec(rule_line_spec(level, hash, name, payload, fields)) == Some(
            (level, RuleView { hash, fields: stored_fields(name, payload, fields) }),
        ),
        !has_sub(rule_line_spec(level, hash, name, payload, fields), newline()),
        leads_with_ids(rule_line_spec(level, hash, name, payload, fields)),
{
    lemma_words_safe();
    lemma_delims_head_unique();
    let ps_text = rule_pairs(level, hash, name, payload, fields);
    let keys = seq![key_level(), key_hash(), key_name(), key_payload()];
    let vals = seq![level, hash, name, payload];
    let pairs = seq![(key_level(), level), (key_hash(), hash), (key_name(), name), (key_payload(), payload)]
        + fields;
    assert forall|k: int| 0 <= k < ps_text.len() implies
        !has_sub(#[trigger] ps_text[k], delim_2())
        && !has_sub(ps_text[k], newline())
        && pair_ok(ps_text[k])
        && pair_of(ps_text[k]) == pairs[k] by {
        let kk = pairs[k].0;
        let vv = pairs[k].1;
        assert(field_safe(kk) && field_safe(vv));
        assert(ps_text[k] == pair_text(kk, vv));
        lemma_pair_free(kk, vv);
        lemma_safe_free(kk);
        lemma_safe_free(vv);
        lemma_split_free(kk, delim_1());
        lemma_split_free(vv, delim_1());
        lemma_split_concat(kk, delim_1(), vv);
    }
    assert(all_free_of(ps_text, delim_2()));
    lemma_split_join(ps_text, delim_2());
    let raw = split_spec(rule_line_spec(level, hash, name, payload, fields), delim_2());
    assert(raw == ps_text);
    assert(pair_ok(raw[0]) && pair_of(raw[0]) == pairs[0]);
    assert(pair_ok(raw[1]) && pair_of(raw[1]) == pairs[1]);
    let ps = raw.map_values(|p: Seq<char>| pair_of(p));
    assert(ps =~= pairs);
    lemma_first_value_at(ps, key_level(), 0);
    lemma_first_value_at(ps, key_hash(), 1);
    let head = seq![(key_level(), level), (key_hash(), hash), (key_name(), name), (key_payload(), payload)];
    let nf = seq![(key_name(), name), (key_payload(), payload)];
    lemma_other_fields_append(head, fields);
    let e = Seq::<(Seq<char>, Seq<char>)>::empty();
    let h1 = seq![(key_level(), level)];
    let h2 = seq![(key_level(), level), (key_hash(), hash)];
    let h3 = seq![(key_level(), level), (key_hash(), hash), (key_name(), name)];
    assert(h1.drop_last() =~= e);
    assert(h2.drop_last() =~= h1);
    assert(h3.drop_last() =~= h2);
    assert(head.drop_last() =~= h3);
    assert(other_fields(e) == e);
    assert(other_fields(h1) == e);
    assert(other_fields(h2) == e);
    assert(other_fields(h3) == e.push((key_name(), name)));
    assert(other_fields(head) == e.push((key_name(), name)).push((key_payload(), payload)));
    assert(other_fields(head) =~= nf);
    assert(other_fields(ps) == stored_fields(name, payload, fields));
    crate::codec::lemma_delims_one_line();
    crate::codec::lemma_join_one_line(ps_text, delim_2());
}

proof fn lemma_blank_line_skipped()
    ensures
        parse_line_spec(Seq::<char>::empty()) is None,
        !has_sub(Seq::<char>::empty(), newline()),
        split_spec(Seq::<char>::empty(), newline()) == seq![Seq::<char>::empty()],
{
    let e = Seq::<char>::empty();
    reveal_strlit("[:1:]");
    reveal_strlit("[:2:]");
    reveal_strlit("\n");
    assert(!has_sub(e, delim_1()));
    assert(!has_sub(e, delim_2()));
    assert(!has_sub(e, newline()));
    lemma_split_free(e, delim_1());
    lemma_split_free(e, delim_2());
    lemma_split_free(e, newline());
    assert(!pair_ok(split_spec(e, delim_2())[0]));
}

/// Adding a rule to a rules file that is empty or ends with a line break, then
/// loading the file, gives the rules of the rule's level as before and the new
/// rule after them, under the hash of its name and payload; the rules of any
/// other level are as before.
pub proof fn lemma_add_then_load(
    content: Seq<char>,
    level: Seq<char>,
    name: Seq<char>,
    payload: Seq<char>,
    fields: Seq<(Seq<char>, Seq<char>)>,
    at: Seq<char>,
)
    requires
        content.len() == 0 || content.last() == '\n',
        field_safe(level),
        field_safe(name),
        field_safe(payload),
        extra_fields_ok(fields),
    ensures
        load_spec(
            content + rule_line_spec(level, rule_hash_spec(name, payload), name, payload, fields)
                + newline(),
            at,
        ) == if at == level {
            load_spec(content, at).push(
                RuleView {
                    hash: rule_hash_spec(name, payload),
                    fields: stored_fields(name, payload, fields),
                },
            )
        } else {
            load_spec(content, at)
        },
{
    let hash = rule_hash_spec(name, payload);
    let line = rule_line_spec(level, hash, name, payload, fields);
    let e = Seq::<char>::empty();
    let nl = newline();
    lemma_rule_hash_safe(name, payload);
    lemma_rule_line_parses(level, hash, name, payload, fields);
    lemma_delims_head_unique();
    lemma_blank_line_skipped();
    reveal_strlit("\n");
    lemma_split_free(line, nl);
    lemma_split_concat(line, nl, e);
    assert(line + nl + e =~= line + nl);
    let tail = seq![line, e];
    assert(split_spec(line + nl, nl) =~= tail);
    if content.len() == 0 {
        assert(content + line + nl =~= line + nl);
        assert(tail.drop_last() =~= seq![line]);
        assert(seq![line].drop_last() =~= Seq::<Seq<char>>::empty());
        assert(seq![e].drop_last() =~= Seq::<Seq<char>>::empty());
        assert(content =~= e);
        let none = Seq::<Seq<char>>::empty();
        assert(rules_at(none, at) == Seq::<RuleView>::empty());
        assert(seq![e].last() == e);
        assert(rules_at(seq![e], at) == rules_at(none, at));
        assert(tail.last() == e);
        assert(rules_at(tail, at) == rules_at(seq![line], at));
        assert(seq![line].last() == line);
    } else {
        let c = content.drop_last();
        assert(c + nl =~= content);
        assert(content + line + nl =~= c + nl + (line + nl));
        lemma_split_concat(c, nl, line + nl);
        lemma_split_concat(c, nl, e);
        assert(c + nl + e =~= content);
        let xs = split_spec(c, nl);
        assert((xs + tail).drop_last() =~= xs.push(line));
        assert(xs.push(line).drop_last() =~= xs);
        assert((xs + seq![e]).drop_last() =~= xs);
        assert((xs + tail).last() == e);
        assert(xs.push(line).last() == line);
        assert((xs + seq![e]).last() == e);
        assert(rules_at(xs + tail, at) == rules_at(xs.push(line), at));
        assert(rules_at(xs + seq![e], at) == rules_at(xs, at));
    }
}

/// Relies on `regex::escape`, `regex::Regex::new` and `regex::Regex::is_match`: an
/// escaped literal of this length always compiles, and the pattern matches a text
/// exactly when the literal occurs in it.
#[verifier::external_body]
fn holds_literal(text: &str, literal: &str) -> (r: bool)
    requires
        literal@.len() <= 4096,
    ensures
        r == has_sub(text@, literal@),
{
    regex::Regex::new(&regex::escape(literal)).unwrap().is_match(text)
}

/// The text by which a rule line of a level is recognised.
pub open spec fn level_text(level: Seq<char>) -> Seq<char> {
    key_level() + delim_1() + level + delim_2()
}

/// The text by which the line of a rule of a level and hash is recognised.
pub open spec fn id_text(level: Seq<char>, hash: Seq<char>) -> Seq<char> {
    key_level() + delim_1() + level + delim_2() + key_hash() + delim_1() + hash + delim_2()
}

/// The lines that do not hold `pat`, in order.
pub open spec fn lines_without(lines: Seq<Seq<char>>, pat: Seq<char>) -> Seq<Seq<char>>
    decreases lines.len(),
{
    if lines.len() == 0 {
        Seq::empty()
    } else if has_sub(lines.last(), pat) {
        lines_without(lines.drop_last(), pat)
    } else {
        lines_without(lines.drop_last(), pat).push(lines.last())
    }
}

/// The lines that hold `pat`, each followed by a line break.
pub open spec fn lines_with(lines: Seq<Seq<char>>, pat: Seq<char>) -> Seq<char>
    decreases lines.len(),
{
    if lines.len() == 0 {
        Seq::empty()
    } else if has_sub(lines.last(), pat) {
        lines_with(lines.drop_last(), pat) + lines.last() + newline()
    } else {
        lines_with(lines.drop_last(), pat)
    }
}

/// Some line holds `pat`.
pub open spec fn some_line_has(lines: Seq<Seq<char>>, pat: Seq<char>) -> bool {
    exists|k: int| 0 <= k < lines.len() && has_sub(#[trigger] lines[k], pat)
}

/// What deleting the rule of a level and hash makes of a rules file: `None`
/// when no line is that rule's, else the file without those lines.
pub open spec fn delete_spec(content: Seq<char>, level: Seq<char>, hash: Seq<char>) -> Option<Seq<char>> {
    let lines = split_spec(content, newline());
    if some_line_has(lines, id_text(level, hash)) {
        Some(join_spec(lines_without(lines, id_text(level, hash)), newline()))
    } else {
        None
    }
}

fn id_string(level: &str, hash: &str) -> (r: String)
    ensures
        r@ == id_text(level@, hash@),
{
    let mut r = String::from_str("level[:1:]");
    r.append(level);
    r.append("[:2:]hash[:1:]");
    r.append(hash);
    r.append("[:2:]");
    proof {
        reveal_strlit("level[:1:]");
        reveal_strlit("[:2:]hash[:1:]");
        reveal_strlit("[:2:]");
        reveal_strlit("[:1:]");
        reveal_strlit("level");
        reveal_strlit("hash");
        assert(r@ =~= id_text(level@, hash@));
    }
    r
}

/// Deletes the rule of a level and hash from a rules file: the new content of
/// the file, with every line that holds `level[:1:]<level>[:2:]hash[:1:]<hash>[:2:]`
/// left out, or `None` when no line holds it and the file stays as it is.
pub fn delete_rule(rules_content: &str, rule_level: &str, rule_hash: &str) -> (r: Option<String>)
    requires
        rule_level@.len() + rule_hash@.len() <= 4000,
    ensures
        match r {
            Some(t) => delete_spec(rules_content@, rule_level@, rule_hash@) == Some(t@),
            None => delete_spec(rules_content@, rule_level@, rule_hash@) is None,
        },
{
    proof {
        reveal_strlit("\n");
        reveal_strlit("[:1:]");
        reveal_strlit("[:2:]");
        reveal_strlit("level");
        reveal_strlit("hash");
    }
    let pat = id_string(rule_level, rule_hash);
    let ghost pv = pat@;
    let lines = split_on(rules_content, "\n");
    let ghost lv = views(lines@);
    let mut kept: Vec<String> = Vec::new();
    let mut found = false;
    let mut i: usize = 0;
    while i < lines.len()
        invariant
            i <= lines@.len(),
            lv == views(lines@),
            pv == pat@,
            pv.len() <= 4096,
            views(kept@) == lines_without(lv.subrange(0, i as int), pv),
            found == some_line_has(lv.subrange(0, i as int), pv),
        decreases lines@.len() - i,
    {
        let ghost sub = lv.subrange(0, i + 1);
        assert(sub.drop_last() =~= lv.subrange(0, i as int));
        assert(sub.last() == lines@[i as int]@);
        if holds_literal(lines[i].as_str(), pat.as_str()) {
            found = true;
            assert(has_sub(sub[i as int], pv));
        } else {
            let ghost before = views(kept@);
            kept.push(lines[i].clone());
            assert(views(kept@) =~= before.push(lines@[i as int]@));
            assert(found == some_line_has(sub, pv)) by {
                if some_line_has(sub, pv) {
                    let k = choose|k: int| 0 <= k < sub.len() && has_sub(#[trigger] sub[k], pv);
                    assert(k < i);
                    assert(sub[k] == lv.subrange(0, i as int)[k]);
                }
                if found {
                    let k = choose|k: int|
                        0 <= k < i && has_sub(#[trigger] lv.subrange(0, i as int)[k], pv);
                    assert(sub[k] == lv.subrange(0, i as int)[k]);
                }
            }
        }
        if found {
            assert(some_line_has(sub, pv)) by {
                if has_sub(sub[i as int], pv) {
                } else {
                    let k = choose|k: int|
                        0 <= k < i && has_sub(#[trigger] lv.subrange(0, i as int)[k], pv);
                    assert(sub[k] == lv.subrange(0, i as int)[k]);
                }
            }
        }
        i = i + 1;
    }
    assert(lv.subrange(0, i as int) =~= lv);
    if found {
        Some(join_with(&kept, "\n"))
    } else {
        None
    }
}

fn level_string(level: &str) -> (r: String)
    ensures
        r@ == level_text(level@),
{
    let mut r = String::from_str("level[:1:]");
    r.append(level);
    r.append("[:2:]");
    proof {
        reveal_strlit("level[:1:]");
        reveal_strlit("[:2:]");
        reveal_strlit("[:1:]");
        reveal_strlit("level");
        assert(r@ =~= level_text(level@));
    }
    r
}

/// What a sensor of a level receives when it asks for its rules: the lines of
/// the rules file that hold `level[:1:]<level>[:2:]`, each followed by a line
/// break (nothing when there are none).
pub fn get_rules_string_by_level(level: &str, rules_content: &str) -> (r: String)
    requires
        level@.len() <= 4000,
    ensures
        r@ == lines_with(split_spec(rules_content@, newline()), level_text(level@)),
{
    proof {
        reveal_strlit("\n");
        reveal_strlit("[:1:]");
        reveal_strlit("[:2:]");
        reveal_strlit("level");
    }
    let pat = level_string(level);
    let ghost pv = pat@;
    let lines = split_on(rules_content, "\n");
    let ghost lv = views(lines@);
    let mut out = String::new();
    let mut i: usize = 0;
    while i < lines.len()
        invariant
            i <= lines@.len(),
            lv == views(lines@),
            pv == pat@,
            pv.len() <= 4096,
            out@ == lines_with(lv.subrange(0, i as int), pv),
        decreases lines@.len() - i,
    {
        proof {
            reveal_strlit("\n");
        }
        let ghost sub = lv.subrange(0, i + 1);
        assert(sub.drop_last() =~= lv.subrange(0, i as int));
        assert(sub.last() == lines@[i as int]@);
        if holds_literal(lines[i].as_str(), pat.as_str()) {
            out.append(lines[i].as_str());
            out.append("\n");
        }
        i = i + 1;
    }
    assert(lv.subrange(0, i as int) =~= lv);
    out
}

/// A rules line that leads with its level pair and then its hash pair, as
/// every line that `add_rule` writes does.
pub open spec fn leads_with_ids(line: Seq<char>) -> bool {
    let raw = split_spec(line, delim_2());
    &&& raw.len() >= 3
    &&& pair_ok(raw[0])
    &&& pair_ok(raw[1])
    &&& pair_of(raw[0]).0 == key_level()
    &&& pair_of(raw[1]).0 == key_hash()
}

/// A line that does not read as a rule, or leads with its level and its hash.
pub open spec fn stored_form(line: Seq<char>) -> bool {
    parse_line_spec(line) is None || leads_with_ids(line)
}

proof fn lemma_pair_joined(p: Seq<char>)
    requires
        pair_ok(p),
    ensures
        p == pair_of(p).0 + delim_1() + pair_of(p).1,
{
    reveal_strlit("[:1:]");
    lemma_join_split(p, delim_1());
    let parts = split_spec(p, delim_1());
    assert(parts.drop_last() =~= seq![parts[0]]);
    assert(join_spec(parts.drop_last(), delim_1()) == parts[0]);
}

/// The level and the hash that a rule line reads as.
pub open spec fn parsed_ids(line: Seq<char>) -> (Seq<char>, Seq<char>) {
    match parse_line_spec(line) {
        Some((l, r)) => (l, r.hash),
        None => (Seq::empty(), Seq::empty()),
    }
}

/// A line that leads with its level and hash holds the text that names them.
pub proof fn lemma_ids_in_line(line: Seq<char>)
    requires
        leads_with_ids(line),
        parse_line_spec(line) is Some,
    ensures
        has_sub(
            line,
            id_text(parsed_ids(line).0, parsed_ids(line).1),
        ),
{
    reveal_strlit("[:2:]");
    lemma_words_safe();
    let raw = split_spec(line, delim_2());
    let ps = raw.map_values(|p: Seq<char>| pair_of(p));
    lemma_first_value_at(ps, key_level(), 0);
    lemma_first_value_at(ps, key_hash(), 1);
    let l = pair_of(raw[0]).1;
    let h = pair_of(raw[1]).1;
    lemma_join_split(line, delim_2());
    lemma_join_front(raw, delim_2());
    lemma_join_front(raw.drop_first(), delim_2());
    lemma_pair_joined(raw[0]);
    lemma_pair_joined(raw[1]);
    let rest = join_spec(raw.drop_first().drop_first(), delim_2());
    let id = id_text(l, h);
    assert(line =~= id + rest);
    assert(line.subrange(0, id.len() as int) =~= id);
    assert(occurs_at(line, id, 0));
}

proof fn lemma_lines_without_props(lines: Seq<Seq<char>>, pat: Seq<char>)
    requires
        forall|k: int| 0 <= k < lines.len() ==> stored_form(#[trigger] lines[k]),
        forall|k: int| 0 <= k < lines.len() ==> !has_sub(#[trigger] lines[k], newline()),
    ensures
        forall|k: int|
            0 <= k < lines_without(lines, pat).len() ==> stored_form(
                #[trigger] lines_without(lines, pat)[k],
            ) && !has_sub(lines_without(lines, pat)[k], pat) && !has_sub(
                lines_without(lines, pat)[k],
                newline(),
            ),
    decreases lines.len(),
{
    if lines.len() > 0 {
        let init = lines.drop_last();
        assert forall|k: int| 0 <= k < init.len() implies stored_form(#[trigger] init[k]) && !has_sub(init[k], newline()) by {
            assert(init[k] == lines[k]);
        }
        lemma_lines_without_props(init, pat);
        let w = lines_without(lines, pat);
        let wi = lines_without(init, pat);
        assert forall|k: int| 0 <= k < w.len() implies stored_form(#[trigger] w[k]) && !has_sub(w[k], pat) && !has_sub(w[k], newline()) by {
            if k < wi.len() {
                assert(w[k] == wi[k]);
            } else {
                assert(w[k] == lines.last());
            }
        }
    }
}

proof fn lemma_no_rule_with_hash(lines: Seq<Seq<char>>, level: Seq<char>, hash: Seq<char>)
    requires
        forall|k: int|
            0 <= k < lines.len() ==> stored_form(#[trigger] lines[k]) && !has_sub(
                lines[k],
                id_text(level, hash),
            ),
    ensures
        forall|k: int| 0 <= k < rules_at(lines, level).len() ==> (#[trigger] rules_at(lines, level)[k]).hash != hash,
    decreases lines.len(),
{
    if lines.len() > 0 {
        let init = lines.drop_last();
        assert forall|k: int| 0 <= k < init.len() implies stored_form(#[trigger] init[k]) && !has_sub(init[k], id_text(level, hash)) by {
            assert(init[k] == lines[k]);
        }
        lemma_no_rule_with_hash(init, level, hash);
        let last = lines.last();
        assert(stored_form(last) && !has_sub(last, id_text(level, hash)));
        if parse_line_spec(last) is Some {
            lemma_ids_in_line(last);
        }
        let all = rules_at(lines, level);
        let part = rules_at(init, level);
        assert forall|k: int| 0 <= k < all.len() implies (#[trigger] all[k]).hash != hash by {
            if k < part.len() {
                assert(all[k] == part[k]);
            }
        }
    }
}

/// Deleting the rule of a level and hash from a rules file whose rule lines
/// lead with their level and hash (as `add_rule` writes them) leaves a file
/// whose rules of that level never carry that hash.
pub proof fn lemma_delete_then_load(content: Seq<char>, level: Seq<char>, hash: Seq<char>)
    requires
        forall|k: int|
            0 <= k < split_spec(content, newline()).len() ==> stored_form(
                #[trigger] split_spec(content, newline())[k],
            ),
    ensures
        delete_spec(content, level, hash) is Some ==> forall|k: int|
            0 <= k < load_spec(delete_spec(content, level, hash)->0, level).len() ==> (
            #[trigger] load_spec(delete_spec(content, level, hash)->0, level)[k]).hash != hash,
{
    let lines = split_spec(content, newline());
    let pat = id_text(level, hash);
    lemma_delims_head_unique();
    lemma_split_pieces_free(content, newline());
    lemma_lines_without_props(lines, pat);
    let kept = lines_without(lines, pat);
    if kept.len() == 0 {
        lemma_blank_line_skipped();
        assert(join_spec(kept, newline()) =~= Seq::<char>::empty());
        let one = seq![Seq::<char>::empty()];
        assert(one.drop_last() =~= Seq::<Seq<char>>::empty());
        assert(rules_at(one, level) == rules_at(Seq::<Seq<char>>::empty(), level));
    } else {
        lemma_split_join(kept, newline());
        lemma_no_rule_with_hash(kept, level, hash);
    }
}

/// A line that `add_rule` writes is in stored form.
pub proof fn lemma_rule_line_stored(
    level: Seq<char>,
    name: Seq<char>,
    payload: Seq<char>,
    fields: Seq<(Seq<char>, Seq<char>)>,
)
    requires
        field_safe(level),
        field_safe(name),
        field_safe(payload),
        extra_fields_ok(fields),
    ensures
        stored_form(rule_line_spec(level, rule_hash_spec(name, payload), name, payload, fields)),
        has_sub(
            rule_line_spec(level, rule_hash_spec(name, payload), name, payload, fields),
            id_text(level, rule_hash_spec(name, payload)),
        ),
{
    lemma_rule_hash_safe(name, payload);
    lemma_rule_line_parses(level, rule_hash_spec(name, payload), name, payload, fields);
    lemma_ids_in_line(rule_line_spec(level, rule_hash_spec(name, payload), name, payload, fields));
}

} // verus!
