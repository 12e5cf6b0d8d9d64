//! Timer definitions kept in a configuration document, one section per timer.
use vstd::prelude::*;
use vstd::string::*;
use ini::Ini;
use crate::decimal::{
    bool_text, decimal, format_bool, format_u64, lemma_bool_round_trip, lemma_decimal_round_trip,
    parse_bool, parse_u64, parsed_bool, parsed_u64,
};
use crate::ini_access::{
    Section, clear_section, cleared, delete_section, first_index, ini_entries, lemma_first_index,
    lemma_first_index_update, lemma_without_absent, opt_view, props_of, section_names, set_in,
    set_value, value_of, without,
};
use crate::timer::Timer;

verus! {

/// A stored timer definition.
pub struct TimerDef {
    pub name: Seq<char>,
    pub notification: Seq<char>,
    pub interval: u64,
    pub repeating: bool,
}

/// A stored entry whose field could not be read: it names the entry and the field.
pub struct ParseError {
    pub entry: String,
    pub field: String,
}

/// Reads the definition stored in the section `section` with pairs `p`, or
/// names the field that is missing or malformed.
///
/// `name` and `notification` default to the section's name, `interval` to 0;
/// `repeating` has no default.
pub open spec fn entry_def(p: Map<Seq<char>, Seq<char>>, section: Seq<char>) -> Result<TimerDef, Seq<char>> {
    let name = if p.contains_key("name"@) { p["name"@] } else { section };
    let notification = if p.contains_key("notification"@) { p["notification"@] } else { section };
    let interval = if p.contains_key("interval"@) { parsed_u64(p["interval"@]) } else { Some(0u64) };
    match interval {
        None => Err("interval"@),
        Some(i) => {
            if !p.contains_key("repeating"@) {
                Err("repeating"@)
            } else {
                match parsed_bool(p["repeating"@]) {
                    None => Err("repeating"@),
                    Some(b) => Ok(TimerDef { name, notification, interval: i, repeating: b }),
                }
            }
        }
    }
}

/// The definitions of the first `n` sections of `e`, in order, skipping the
/// general section; or the first entry and field that cannot be read.
pub open spec fn load_defs(e: Seq<Section>, n: nat) -> Result<Seq<TimerDef>, (Seq<char>, Seq<char>)>
    decreases n,
{
    if n == 0 {
        Ok(Seq::empty())
    } else {
        match load_defs(e, (n - 1) as nat) {
            Err(x) => Err(x),
            Ok(defs) => match e[n - 1].0 {
                None => Ok(defs),
                Some(s) => match entry_def(props_of(e, Some(s)), s) {
                    Err(f) => Err((s, f)),
                    Ok(d) => Ok(defs.push(d)),
                },
            },
        }
    }
}

proof fn lemma_load_err_persists(e: Seq<Section>, i: nat, n: nat)
    requires
        i <= n,
        load_defs(e, i) is Err,
    ensures
        load_defs(e, n) == load_defs(e, i),
    decreases n - i,
{
    if n > i {
        lemma_load_err_persists(e, i, (n - 1) as nat);
    }
}

/// The definitions of all sections of `e`.
pub open spec fn loaded(e: Seq<Section>) -> Result<Seq<TimerDef>, (Seq<char>, Seq<char>)> {
    load_defs(e, e.len())
}

/// `t` is a fresh runtime timer for `d`, started at `now`.
pub open spec fn starts(t: Timer, d: TimerDef, now: u64) -> bool {
    &&& t.name@ == d.name
    &&& t.notification@ == d.notification
    &&& t.interval == d.interval
    &&& t.repeating == d.repeating
    &&& t.started_at == now
    &&& !t.ended
}

/// The sections after `name` was stored with the given fields, replacing the
/// pairs of an earlier definition under that name where it stands.
pub open spec fn added(e: Seq<Section>, name: Seq<char>, notification: Seq<char>, interval: u64, repeating: bool) -> Seq<Section> {
    let s = Some(name);
    set_in(
        set_in(set_in(cleared(e, s), s, "notification"@, notification), s, "interval"@, decimal(interval as nat)),
        s,
        "repeating"@,
        bool_text(repeating),
    )
}

fn read_entry(ini: &Ini, section: &String, now: u64) -> (r: Result<Timer, ParseError>)
    ensures
        match (r, entry_def(props_of(ini_entries(*ini), Some(section@)), section@)) {
            (Ok(t), Ok(d)) => starts(t, d, now),
            (Err(e), Err(f)) => e.entry@ == section@ && e.field@ == f,
            _ => false,
        },
{
    let sec = section.as_str();
    let name = match value_of(ini, sec, "name") {
        Some(v) => v,
        None => section.clone(),
    };
    let notification = match value_of(ini, sec, "notification") {
        Some(v) => v,
        None => section.clone(),
    };
    let interval = match value_of(ini, sec, "interval") {
        Some(v) => match parse_u64(v.as_str()) {
            Some(i) => i,
            None => {
                return Err(ParseError { entry: section.clone(), field: String::from_str("interval") });
            },
        },
        None => 0,
    };
    let repeating = match value_of(ini, sec, "repeating") {
        Some(v) => match parse_bool(v.as_str()) {
            Some(b) => b,
            None => {
                return Err(ParseError { entry: section.clone(), field: String::from_str("repeating") });
            },
        },
        None => {
            return Err(ParseError { entry: section.clone(), field: String::from_str("repeating") });
        },
    };
    Ok(Timer::new(name, notification, interval, repeating, now))
}

/// Reads every stored timer, in section order, each started at `now`.
///
/// Fails on the first entry whose `interval` or `repeating` field is malformed,
/// or whose `repeating` field is missing.
pub fn load_timers_from_file(ini: &Ini, now: u64) -> (r: Result<Vec<Timer>, ParseError>)
    ensures
        match (r, loaded(ini_entries(*ini))) {
            (Ok(ts), Ok(defs)) => ts@.len() == defs.len() && forall|i: int|
                0 <= i < defs.len() ==> #[trigger] starts(ts@[i], defs[i], now),
            (Err(e), Err((s, f))) => e.entry@ == s && e.field@ == f,
            _ => false,
        },
{
    let ghost e = ini_entries(*ini);
    let names = section_names(ini);
    let mut timers: Vec<Timer> = Vec::new();
    let mut i: usize = 0;
    while i < names.len()
        invariant
            i <= names@.len(),
            names@.len() == e.len(),
            e == ini_entries(*ini),
            forall|k: int| 0 <= k < names@.len() ==> #[trigger] opt_view(names@[k]) == e[k].0,
            match load_defs(e, i as nat) {
                Ok(defs) => timers@.len() == defs.len() && forall|k: int|
                    0 <= k < defs.len() ==> #[trigger] starts(timers@[k], defs[k], now),
                Err(_) => false,
            },
        decreases names@.len() - i,
    {
        assert(opt_view(names@[i as int]) == e[i as int].0);
        match &names[i] {
            None => {},
            Some(section) => {
                match read_entry(ini, section, now) {
                    Ok(t) => {
                        let ghost before = timers@;
                        timers.push(t);
                        proof {
                            let defs = load_defs(e, i as nat)->Ok_0;
                            assert(timers@ == before.push(t));
                            assert(load_defs(e, (i + 1) as nat) == Ok::<Seq<TimerDef>, (Seq<char>, Seq<char>)>(
                                defs.push(entry_def(props_of(e, Some(section@)), section@)->Ok_0),
                            ));
                            assert forall|k: int| 0 <= k < defs.len() + 1 implies
                                #[trigger] starts(timers@[k], load_defs(e, (i + 1) as nat)->Ok_0[k], now) by {
                                if k < defs.len() {
                                    assert(timers@[k] == before[k]);
                                }
                            }
                        }
                    },
                    Err(err) => {
                        proof {
                            lemma_load_err_persists(e, (i + 1) as nat, e.len());
                        }
                        return Err(err);
                    },
                }
            },
        }
        i = i + 1;
    }
    assert(e.len() == i);
    Ok(timers)
}

/// The word that tells how a timer counts: `every` for a repeating one, `after` otherwise.
pub open spec fn cadence(repeating: bool) -> Seq<char> {
    if repeating {
        "every"@
    } else {
        "after"@
    }
}

/// The line that lists a timer: `<name>: <notification> <every|after> <interval> seconds`.
pub open spec fn listing(t: Timer) -> Seq<char> {
    t.name@ + ": "@ + t.notification@ + " "@ + cadence(t.repeating) + " "@ + decimal(t.interval as nat)
        + " seconds"@
}

/// Describes one timer for a listing.
pub fn describe_timer(t: &Timer) -> (r: String)
    ensures
        r@ == listing(*t),
{
    let mut line = t.name.clone();
    line.append(": ");
    line.append(t.notification.as_str());
    line.append(" ");
    if t.repeating {
        line.append("every");
    } else {
        line.append("after");
    }
    line.append(" ");
    let n = format_u64(t.interval);
    line.append(n.as_str());
    line.append(" seconds");
    line
}

/// The listing of the given timers, one line each, in order.
pub fn list_timers(timers: &Vec<Timer>) -> (r: Vec<String>)
    ensures
        r@.len() == timers@.len(),
        forall|i: int| 0 <= i < r@.len() ==> (#[trigger] r@[i])@ == listing(timers@[i]),
{
    let mut lines: Vec<String> = Vec::new();
    let mut i: usize = 0;
    while i < timers.len()
        invariant
            i <= timers@.len(),
            lines@.len() == i,
            forall|k: int| 0 <= k < i ==> (#[trigger] lines@[k])@ == listing(timers@[k]),
        decreases timers@.len() - i,
    {
        let line = describe_timer(&timers[i]);
        lines.push(line);
        i = i + 1;
    }
    lines
}

/// Stores a timer definition under `name`, replacing any earlier one entirely.
pub fn add_timer(ini: &mut Ini, name: String, notification: String, interval: u64, repeating: bool)
    ensures
        ini_entries(*final(ini)) == added(ini_entries(*old(ini)), name@, notification@, interval, repeating),
{
    let sec = name.as_str();
    clear_section(ini, sec);
    set_value(ini, sec, "notification", notification);
    set_value(ini, sec, "interval", format_u64(interval));
    set_value(ini, sec, "repeating", format_bool(repeating));
}

/// Deletes the timer definition stored under `name`, if there is one; a name
/// that is not stored leaves the document as it was.
pub fn remove_timer(ini: &mut Ini, name: String)
    ensures
        ini_entries(*final(ini)) == without(ini_entries(*old(ini)), Some(name@)),
        (forall|i: int| 0 <= i < ini_entries(*old(ini)).len() ==> #[trigger] ini_entries(*old(ini))[i].0 != Some(name@))
            ==> ini_entries(*final(ini)) == ini_entries(*old(ini)),
{
    delete_section(ini, name.as_str());
    proof {
        let e = ini_entries(*old(ini));
        if forall|i: int| 0 <= i < e.len() ==> #[trigger] e[i].0 != Some(name@) {
            lemma_without_absent(e, Some(name@));
        }
    }
}

/// The pairs that `add_timer` stores for a definition.
pub open spec fn stored_pairs(notification: Seq<char>, interval: u64, repeating: bool) -> Map<Seq<char>, Seq<char>> {
    Map::empty().insert("notification"@, notification).insert("interval"@, decimal(interval as nat)).insert(
        "repeating"@,
        bool_text(repeating),
    )
}

proof fn lemma_set_last(w: Seq<Section>, s: Option<Seq<char>>, m: Map<Seq<char>, Seq<char>>, k: Seq<char>, v: Seq<char>)
    requires
        forall|i: int| 0 <= i < w.len() ==> #[trigger] w[i].0 != s,
    ensures
        set_in(w.push((s, m)), s, k, v) == w.push((s, m.insert(k, v))),
{
    let w1 = w.push((s, m));
    lemma_first_index(w1, s);
    assert(w1[w.len() as int].0 == s);
    let p = first_index(w1, s);
    if p < w.len() {
        assert(w1[p] == w[p]);
    }
    assert(p == w.len());
    assert(w1.update(p, (s, m.insert(k, v))) == w.push((s, m.insert(k, v))));
}

proof fn lemma_set_at(e: Seq<Section>, s: Option<Seq<char>>, m: Map<Seq<char>, Seq<char>>, k: Seq<char>, v: Seq<char>)
    requires
        first_index(e, s) >= 0,
    ensures
        first_index(e.update(first_index(e, s), (s, m)), s) == first_index(e, s),
        set_in(e.update(first_index(e, s), (s, m)), s, k, v) == e.update(first_index(e, s), (s, m.insert(k, v))),
{
    let p = first_index(e, s);
    lemma_first_index(e, s);
    lemma_first_index_update(e, s, m);
    let u = e.update(p, (s, m));
    assert(u[p].1 == m);
    assert(u.update(p, (s, m.insert(k, v))) =~= e.update(p, (s, m.insert(k, v))));
}

/// `add_timer` keeps every other section as it was and where it was. A
/// section already named `name` keeps its place and holds exactly the stored
/// pairs afterwards; where there was none, one such section is appended.
pub proof fn lemma_added_shape(e: Seq<Section>, name: Seq<char>, notification: Seq<char>, interval: u64, repeating: bool)
    ensures
        ({
            let s = Some(name);
            let m = stored_pairs(notification, interval, repeating);
            let after = added(e, name, notification, interval, repeating);
            &&& first_index(e, s) >= 0 ==> after == e.update(first_index(e, s), (s, m))
            &&& first_index(e, s) < 0 ==> after == e.push((s, m))
        }),
{
    let s = Some(name);
    let m1 = Map::<Seq<char>, Seq<char>>::empty().insert("notification"@, notification);
    let m2 = m1.insert("interval"@, decimal(interval as nat));
    lemma_first_index(e, s);
    if first_index(e, s) >= 0 {
        let p = first_index(e, s);
        lemma_set_at(e, s, Map::empty(), "notification"@, notification);
        lemma_set_at(e, s, m1, "interval"@, decimal(interval as nat));
        lemma_set_at(e, s, m2, "repeating"@, bool_text(repeating));
    } else {
        assert(set_in(e, s, "notification"@, notification) == e.push((s, m1)));
        lemma_set_last(e, s, m1, "interval"@, decimal(interval as nat));
        lemma_set_last(e, s, m2, "repeating"@, bool_text(repeating));
    }
}

proof fn lemma_load_err_names_section(e: Seq<Section>, n: nat)
    requires
        n <= e.len(),
        load_defs(e, n) is Err,
    ensures
        ({
            let x = load_defs(e, n)->Err_0.0;
            &&& exists|i: int| 0 <= i < n && #[trigger] e[i].0 == Some(x)
            &&& entry_def(props_of(e, Some(x)), x) is Err
        }),
    decreases n,
{
    if load_defs(e, (n - 1) as nat) is Err {
        lemma_load_err_names_section(e, (n - 1) as nat);
        let i = choose|i: int| 0 <= i < n - 1 && #[trigger] e[i].0 == Some(load_defs(e, (n - 1) as nat)->Err_0.0);
        assert(e[i].0 == Some(load_defs(e, n)->Err_0.0));
    } else {
        assert(e[n - 1].0 == Some(load_defs(e, n)->Err_0.0));
    }
}

proof fn lemma_load_contains(e: Seq<Section>, n: nat, i: int, x: Seq<char>)
    requires
        n <= e.len(),
        0 <= i < n,
        e[i].0 == Some(x),
        load_defs(e, n) is Ok,
    ensures
        load_defs(e, n)->Ok_0.contains(entry_def(props_of(e, Some(x)), x)->Ok_0),
    decreases n,
{
    let prev = load_defs(e, (n - 1) as nat);
    let d = entry_def(props_of(e, Some(x)), x)->Ok_0;
    if i == n - 1 {
        let defs = load_defs(e, n)->Ok_0;
        assert(defs[defs.len() - 1] == d);
    } else {
        lemma_load_contains(e, (n - 1) as nat, i, x);
        let p = prev->Ok_0;
        let j = choose|j: int| 0 <= j < p.len() && p[j] == d;
        assert(load_defs(e, n)->Ok_0[j] == d);
    }
}

/// Storing a timer and loading the store gives back the stored definition
/// (name, notification text, interval and repeat flag) among those loaded;
/// if loading fails, it fails on another entry.
pub proof fn lemma_add_then_load(e: Seq<Section>, name: Seq<char>, notification: Seq<char>, interval: u64, repeating: bool)
    ensures
        ({
            let after = added(e, name, notification, interval, repeating);
            let d = TimerDef { name, notification, interval, repeating };
            &&& entry_def(props_of(after, Some(name)), name) == Ok::<TimerDef, Seq<char>>(d)
            &&& loaded(after) is Ok ==> loaded(after)->Ok_0.contains(d)
            &&& loaded(after) is Err ==> loaded(after)->Err_0.0 != name
        }),
{
    reveal_strlit("name");
    reveal_strlit("notification");
    reveal_strlit("interval");
    reveal_strlit("repeating");
    assert("name"@.len() == 4 && "notification"@.len() == 12);
    assert("interval"@.len() == 8 && "repeating"@.len() == 9);
    let s = Some(name);
    let after = added(e, name, notification, interval, repeating);
    let m = stored_pairs(notification, interval, repeating);
    lemma_added_shape(e, name, notification, interval, repeating);
    lemma_first_index(e, s);
    let p = first_index(e, s);
    let k: int = if p >= 0 { p } else { e.len() as int };
    if p >= 0 {
        lemma_first_index_update(e, s, m);
    } else {
        lemma_first_index(after, s);
        let q = first_index(after, s);
        assert(after[e.len() as int].0 == s);
        if q < e.len() {
            assert(after[q] == e[q]);
        }
    }
    assert(first_index(after, s) == k);
    assert(props_of(after, s) == m);
    lemma_decimal_round_trip(interval);
    lemma_bool_round_trip(repeating);
    assert(m.dom() =~= set!["notification"@, "interval"@, "repeating"@]);
    assert(!m.contains_key("name"@));
    assert(m["notification"@] == notification);
    assert(m["interval"@] == decimal(interval as nat));
    assert(m["repeating"@] == bool_text(repeating));
    let d = TimerDef { name, notification, interval, repeating };
    assert(entry_def(m, name) == Ok::<TimerDef, Seq<char>>(d));
    assert(after[k].0 == s);
    if loaded(after) is Ok {
        lemma_load_contains(after, after.len(), k, name);
    } else {
        lemma_load_err_names_section(after, after.len());
    }
}

/// Storing a timer under a name replaces its definition: in a document whose
/// section names are distinct, as a configuration document's are, exactly one
/// section carries the name afterwards, and it holds exactly the stored pairs.
pub proof fn lemma_add_replaces(e: Seq<Section>, name: Seq<char>, notification: Seq<char>, interval: u64, repeating: bool)
    requires
        forall|i: int, j: int| 0 <= i < e.len() && 0 <= j < e.len() && #[trigger] e[i].0 == Some(name)
            && #[trigger] e[j].0 == Some(name) ==> i == j,
    ensures
        ({
            let after = added(e, name, notification, interval, repeating);
            &&& exists|i: int| 0 <= i < after.len() && #[trigger] after[i].0 == Some(name)
            &&& forall|i: int, j: int| 0 <= i < after.len() && 0 <= j < after.len() && #[trigger] after[i].0 == Some(name)
                && #[trigger] after[j].0 == Some(name) ==> i == j
            &&& props_of(after, Some(name)) == stored_pairs(notification, interval, repeating)
        }),
{
    let s = Some(name);
    let after = added(e, name, notification, interval, repeating);
    let m = stored_pairs(notification, interval, repeating);
    lemma_added_shape(e, name, notification, interval, repeating);
    lemma_first_index(e, s);
    let p = first_index(e, s);
    if p >= 0 {
        lemma_first_index_update(e, s, m);
        assert(after[p].0 == s);
        assert forall|i: int, j: int| 0 <= i < after.len() && 0 <= j < after.len() && #[trigger] after[i].0 == s
            && #[trigger] after[j].0 == s implies i == j by {
            if i != p {
                assert(after[i] == e[i]);
            }
            if j != p {
                assert(after[j] == e[j]);
            }
            assert(e[p].0 == s);
        }
    } else {
        let n = e.len() as int;
        assert(after[n].0 == s);
        assert forall|i: int, j: int| 0 <= i < after.len() && 0 <= j < after.len() && #[trigger] after[i].0 == s
            && #[trigger] after[j].0 == s implies i == j by {
            if i < n {
                assert(after[i] == e[i]);
            }
            if j < n {
                assert(after[j] == e[j]);
            }
        }
        lemma_first_index(after, s);
        let q = first_index(after, s);
        if q < n {
            assert(after[q] == e[q]);
        }
    }
}

/// Removing a name that is not stored changes nothing.
pub proof fn lemma_remove_absent(e: Seq<Section>, name: Seq<char>)
    requires
        forall|i: int| 0 <= i < e.len() ==> #[trigger] e[i].0 != Some(name),
    ensures
        without(e, Some(name)) == e,
{
    lemma_without_absent(e, Some(name));
}

} // verus!
