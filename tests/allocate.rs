use brdgme_db::allocate::{choose_colors, choose_in_order, filter_pref, filter_prefs, LocPref};
use brdgme_db::color::{colors, Color};

use Color::{Amber, Blue, BlueGrey, Brown, Green, Purple, Red};

#[test]
fn it_works() {
    assert_eq!(colors().len(), 7);
}

#[test]
fn choose_works() {
    assert_eq!(
        vec![Color::Amber, Color::Blue, Color::Green],
        choose_colors(
            &[Color::Amber, Color::Blue, Color::Green],
            &[vec![], vec![Color::Blue, Color::Green], vec![Color::Green]]
        )
    );
}

#[test]
fn catalogue_order() {
    assert_eq!(colors(), vec![Red, Green, Blue, Amber, Purple, Brown, BlueGrey]);
    for (i, c) in colors().into_iter().enumerate() {
        assert_eq!(c.index(), i);
    }
}

#[test]
fn empty_available_gives_nothing() {
    assert_eq!(choose_colors(&[], &[vec![Blue]]), vec![]);
    assert_eq!(choose_in_order(&[], &[vec![Blue]], &[0]), vec![]);
}

#[test]
fn no_slots_give_nothing() {
    assert_eq!(choose_colors(&[Red, Blue], &[]), vec![]);
    assert_eq!(choose_in_order(&[Red, Blue], &[], &[]), vec![]);
}

#[test]
fn single_colour_two_empty_slots() {
    assert_eq!(choose_colors(&[Red], &[vec![], vec![]]), vec![Red, Red]);
}

#[test]
fn shared_top_preference_is_recorded_twice() {
    assert_eq!(
        choose_in_order(&[Red, Blue], &[vec![Red], vec![Red]], &[0, 1]),
        vec![Red, Red]
    );
    assert_eq!(
        choose_in_order(&[Red, Blue], &[vec![Red], vec![Red]], &[1, 0]),
        vec![Red, Red]
    );
}

#[test]
fn shared_top_preference_then_drain() {
    assert_eq!(
        choose_in_order(&[Red, Blue, Green], &[vec![Red], vec![Red], vec![]], &[0, 1, 2]),
        vec![Red, Red, Green]
    );
}

#[test]
fn distinct_tops_ignore_visiting_order() {
    let available = [Amber, Blue, Green];
    let prefs = [vec![], vec![Blue, Green], vec![Green]];
    let orders: [[usize; 3]; 6] =
        [[0, 1, 2], [0, 2, 1], [1, 0, 2], [1, 2, 0], [2, 0, 1], [2, 1, 0]];
    for order in orders.iter() {
        assert_eq!(choose_in_order(&available, &prefs, order), vec![Amber, Blue, Green]);
    }
    for _ in 0..50 {
        assert_eq!(choose_colors(&available, &prefs), vec![Amber, Blue, Green]);
    }
}

#[test]
fn pass_stops_when_pool_is_empty() {
    assert_eq!(
        choose_in_order(&[Red, Blue], &[vec![Red], vec![Blue], vec![Blue]], &[0, 1, 2]),
        vec![Red, Blue, Red]
    );
}

#[test]
fn leftovers_drain_in_catalogue_order() {
    assert_eq!(
        choose_in_order(&[BlueGrey, Green, Purple], &[vec![], vec![], vec![]], &[2, 0, 1]),
        vec![Green, Purple, BlueGrey]
    );
}

#[test]
fn default_colour_when_pool_runs_out() {
    let r = choose_colors(&[Blue], &[vec![Blue], vec![], vec![]]);
    assert_eq!(r, vec![Blue, Red, Red]);
    assert_eq!(r.len(), 3);
}

#[test]
fn unavailable_preferences_are_ignored() {
    assert_eq!(
        choose_in_order(&[Blue, Brown], &[vec![Red, Purple, Brown], vec![Amber]], &[1, 0]),
        vec![Brown, Blue]
    );
}

#[test]
fn result_entries_available_or_default() {
    let available = [Green, Purple];
    let prefs = [vec![Purple], vec![Red], vec![Purple, Green], vec![], vec![Amber]];
    let r = choose_colors(&available, &prefs);
    assert_eq!(r.len(), prefs.len());
    for c in r.iter() {
        assert!(available.contains(c) || *c == Red);
    }
}

#[test]
fn duplicate_available_entries_count_once() {
    assert_eq!(
        choose_in_order(&[Blue, Blue], &[vec![], vec![]], &[0, 1]),
        vec![Blue, Red]
    );
}

#[test]
fn filter_pref_keeps_order() {
    assert_eq!(
        filter_pref(&[Green, Red, Amber], &vec![Amber, Blue, Red, Brown, Green]),
        vec![Amber, Red, Green]
    );
    assert_eq!(filter_pref(&[], &vec![Amber, Blue]), vec![]);
}

#[test]
fn filter_prefs_keeps_slots() {
    let prefs: Vec<LocPref> = vec![(2, vec![Red, Blue]), (0, vec![Green]), (1, vec![])];
    assert_eq!(
        filter_prefs(&[Blue, Green], &prefs),
        vec![(2, vec![Blue]), (0, vec![Green]), (1, vec![])]
    );
}
