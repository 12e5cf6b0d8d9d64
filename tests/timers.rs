use ini::Ini;
use timers::decimal::{format_bool, format_u64, parse_bool, parse_u64};
use timers::scheduler::{has_pending, poll_timers};
use timers::store::{add_timer, describe_timer, list_timers, load_timers_from_file, remove_timer};
use timers::timer::Timer;

fn section(ini: &mut Ini, name: &str, pairs: &[(&str, &str)]) {
    for (k, v) in pairs {
        ini.with_section(Some(name)).set(*k, *v);
    }
}

fn names(ini: &Ini) -> Vec<Option<String>> {
    ini.sections().map(|s| s.map(String::from)).collect()
}

#[test]
fn coffee_fires_at_once_and_run_ends() {
    let mut ini = Ini::new();
    section(&mut ini, "Coffee", &[("interval", "0"), ("repeating", "false"), ("notification", "Drink coffee")]);
    let mut timers = match load_timers_from_file(&ini, 0) {
        Ok(t) => t,
        Err(_) => panic!("load failed"),
    };
    assert_eq!(timers.len(), 1);
    assert!(has_pending(&timers));
    let fired = poll_timers(&mut timers, 0);
    assert_eq!(fired, vec![0]);
    assert_eq!(timers[0].name, "Coffee");
    assert_eq!(timers[0].notification, "Drink coffee");
    assert!(timers[0].ended);
    assert!(!has_pending(&timers));
}

#[test]
fn standup_repeats_while_once_only_ends() {
    let mut ini = Ini::new();
    section(&mut ini, "Standup", &[("interval", "1800"), ("repeating", "true")]);
    section(&mut ini, "OnceOnly", &[("interval", "10"), ("repeating", "false")]);
    let mut timers = match load_timers_from_file(&ini, 0) {
        Ok(t) => t,
        Err(_) => panic!("load failed"),
    };
    assert_eq!(timers[0].notification, "Standup");
    let mut standup: Vec<u64> = Vec::new();
    let mut once: Vec<u64> = Vec::new();
    let mut now: u64 = 0;
    while now <= 3_700_000 {
        for i in poll_timers(&mut timers, now) {
            if i == 0 {
                standup.push(now);
            } else {
                once.push(now);
            }
        }
        assert!(has_pending(&timers));
        now += 1000;
    }
    assert_eq!(once, vec![10_000]);
    assert_eq!(standup, vec![1_800_000, 3_600_000]);
    assert!(timers[1].ended);
    assert!(!timers[0].ended);
}

#[test]
fn missing_repeating_names_the_entry() {
    let mut ini = Ini::new();
    section(&mut ini, "Good", &[("interval", "5"), ("repeating", "true")]);
    section(&mut ini, "Broken", &[("interval", "5")]);
    match load_timers_from_file(&ini, 0) {
        Ok(_) => panic!("expected a parse error"),
        Err(e) => {
            assert_eq!(e.entry, "Broken");
            assert_eq!(e.field, "repeating");
        }
    }
}

#[test]
fn malformed_fields_are_rejected() {
    let mut ini = Ini::new();
    section(&mut ini, "A", &[("interval", "ten"), ("repeating", "true")]);
    let e = load_timers_from_file(&ini, 0).err().unwrap();
    assert_eq!((e.entry.as_str(), e.field.as_str()), ("A", "interval"));
    let mut ini = Ini::new();
    section(&mut ini, "B", &[("interval", "3"), ("repeating", "yes")]);
    let e = load_timers_from_file(&ini, 0).err().unwrap();
    assert_eq!((e.entry.as_str(), e.field.as_str()), ("B", "repeating"));
}

#[test]
fn defaults_and_name_override() {
    let ini = Ini::load_from_str("[Tea]\nrepeating=false\n[x]\nname=Walk\nrepeating=true\ninterval=+20\n").unwrap();
    let timers = match load_timers_from_file(&ini, 7) {
        Ok(t) => t,
        Err(_) => panic!("load failed"),
    };
    assert_eq!(timers.len(), 2);
    assert_eq!(timers[0].name, "Tea");
    assert_eq!(timers[0].notification, "Tea");
    assert_eq!(timers[0].interval, 0);
    assert!(!timers[0].repeating);
    assert_eq!(timers[0].started_at, 7);
    assert!(!timers[0].ended);
    assert_eq!(timers[1].name, "Walk");
    assert_eq!(timers[1].notification, "x");
    assert_eq!(timers[1].interval, 20);
    assert!(timers[1].repeating);
}

#[test]
fn empty_store_loads_nothing() {
    let ini = Ini::new();
    let timers = match load_timers_from_file(&ini, 0) {
        Ok(t) => t,
        Err(_) => panic!("load failed"),
    };
    assert!(timers.is_empty());
    assert!(!has_pending(&timers));
}

#[test]
fn add_then_load_round_trips() {
    let mut ini = Ini::new();
    add_timer(&mut ini, "Stretch".to_string(), "Stand up".to_string(), 90, false);
    assert_eq!(ini.get_from(Some("Stretch"), "interval"), Some("90"));
    assert_eq!(ini.get_from(Some("Stretch"), "repeating"), Some("false"));
    let timers = match load_timers_from_file(&ini, 0) {
        Ok(t) => t,
        Err(_) => panic!("load failed"),
    };
    assert_eq!(timers.len(), 1);
    assert_eq!(timers[0].name, "Stretch");
    assert_eq!(timers[0].notification, "Stand up");
    assert_eq!(timers[0].interval, 90);
    assert!(!timers[0].repeating);
}

#[test]
fn add_same_name_replaces() {
    let mut ini = Ini::load_from_str("[Eyes]\nname=Old\nnotification=old\ninterval=1\nrepeating=false\n[Other]\nrepeating=true\n").unwrap();
    add_timer(&mut ini, "Eyes".to_string(), "Look away".to_string(), 1200, true);
    let named: Vec<Option<String>> = names(&ini).into_iter().filter(|s| s.as_deref() == Some("Eyes")).collect();
    assert_eq!(named.len(), 1);
    let timers = match load_timers_from_file(&ini, 0) {
        Ok(t) => t,
        Err(_) => panic!("load failed"),
    };
    assert_eq!(timers.len(), 2);
    let first = &timers[0];
    assert_eq!(first.name, "Eyes");
    assert_eq!(first.notification, "Look away");
    assert_eq!(first.interval, 1200);
    assert!(first.repeating);
    assert_eq!(timers[1].name, "Other");
    assert_eq!(names(&ini), vec![None, Some("Eyes".to_string()), Some("Other".to_string())]);
}

#[test]
fn add_new_name_appends() {
    let mut ini = Ini::new();
    add_timer(&mut ini, "A".to_string(), "a".to_string(), 1, true);
    add_timer(&mut ini, "B".to_string(), "b".to_string(), 2, false);
    add_timer(&mut ini, "A".to_string(), "again".to_string(), 3, false);
    assert_eq!(names(&ini), vec![None, Some("A".to_string()), Some("B".to_string())]);
    assert_eq!(ini.get_from(Some("A"), "notification"), Some("again"));
    assert_eq!(ini.get_from(Some("A"), "interval"), Some("3"));
}

#[test]
fn remove_absent_is_a_no_op() {
    let mut ini = Ini::new();
    add_timer(&mut ini, "A".to_string(), "a".to_string(), 1, true);
    let before = names(&ini);
    remove_timer(&mut ini, "Missing".to_string());
    assert_eq!(names(&ini), before);
    assert_eq!(ini.get_from(Some("A"), "notification"), Some("a"));
}

#[test]
fn remove_present_deletes_it() {
    let mut ini = Ini::new();
    add_timer(&mut ini, "A".to_string(), "a".to_string(), 1, true);
    add_timer(&mut ini, "B".to_string(), "b".to_string(), 2, false);
    remove_timer(&mut ini, "A".to_string());
    assert_eq!(names(&ini), vec![None, Some("B".to_string())]);
}

#[test]
fn one_shot_fires_exactly_once() {
    let mut timers = vec![Timer::new("T".to_string(), "t".to_string(), 3, false, 0)];
    let mut count = 0;
    let mut now: u64 = 0;
    while now <= 6000 {
        count += poll_timers(&mut timers, now).len();
        now += 1000;
    }
    assert_eq!(count, 1);
    assert!(timers[0].ended);
}

#[test]
fn repeating_count_matches_duration() {
    let mut timers = vec![Timer::new("R".to_string(), "r".to_string(), 2, true, 0)];
    let mut count = 0;
    let mut now: u64 = 0;
    while now <= 10_000 {
        count += poll_timers(&mut timers, now).len();
        assert!(!timers[0].ended);
        now += 1000;
    }
    assert_eq!(count, 5);
}

#[test]
fn simultaneous_firings_keep_collection_order() {
    let mut timers = vec![
        Timer::new("a".to_string(), "".to_string(), 1, false, 0),
        Timer::new("b".to_string(), "".to_string(), 5, false, 0),
        Timer::new("c".to_string(), "".to_string(), 1, true, 0),
    ];
    assert_eq!(poll_timers(&mut timers, 999), Vec::<usize>::new());
    assert_eq!(poll_timers(&mut timers, 1000), vec![0, 2]);
    assert_eq!(timers[2].started_at, 1000);
    assert!(timers[0].ended);
}

#[test]
fn listing_lines() {
    let timers = vec![
        Timer::new("Tea".to_string(), "Brew".to_string(), 300, true, 0),
        Timer::new("Egg".to_string(), "Done".to_string(), 0, false, 0),
    ];
    assert_eq!(describe_timer(&timers[0]), "Tea: Brew every 300 seconds");
    assert_eq!(list_timers(&timers), vec!["Tea: Brew every 300 seconds".to_string(), "Egg: Done after 0 seconds".to_string()]);
}

#[test]
fn decimal_fields() {
    assert_eq!(parse_u64("0"), Some(0));
    assert_eq!(parse_u64("+5"), Some(5));
    assert_eq!(parse_u64("18446744073709551615"), Some(u64::MAX));
    assert_eq!(parse_u64("18446744073709551616"), None);
    assert_eq!(parse_u64(""), None);
    assert_eq!(parse_u64("+"), None);
    assert_eq!(parse_u64("-0"), None);
    assert_eq!(parse_u64(" 1"), None);
    assert_eq!(format_u64(0), "0");
    assert_eq!(format_u64(1234), "1234");
    assert_eq!(format_u64(u64::MAX), "18446744073709551615");
    for n in [0u64, 9, 10, 99, 100, 4096, u64::MAX] {
        assert_eq!(parse_u64(&format_u64(n)), Some(n));
        assert_eq!(format_u64(n), n.to_string());
    }
}

#[test]
fn boolean_fields() {
    assert_eq!(parse_bool("true"), Some(true));
    assert_eq!(parse_bool("false"), Some(false));
    assert_eq!(parse_bool("True"), None);
    assert_eq!(parse_bool(""), None);
    assert_eq!(format_bool(true), "true");
    assert_eq!(format_bool(false), "false");
}

#[test]
fn firings_are_spaced_by_interval_within_a_quantum() {
    let mut timers = vec![Timer::new("R".to_string(), "r".to_string(), 2, true, 0)];
    let mut fired_at: Vec<u64> = Vec::new();
    let mut now: u64 = 500;
    while now <= 9_500 {
        let before = timers[0].started_at;
        if !poll_timers(&mut timers, now).is_empty() {
            fired_at.push(now);
        }
        assert!(timers[0].started_at >= before);
        now += 1000;
    }
    assert_eq!(fired_at, vec![2_500, 4_500, 6_500, 8_500]);
}
