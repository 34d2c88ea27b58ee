use murpapier::entry::Wallpaper;
use murpapier::order::{entry_le, sort_entries, SortKey};
use murpapier::schedule::Schedule;
use murpapier::text::path_le;

fn at(path: &str, hour: u32, min: u32) -> Wallpaper {
    let mut w = Wallpaper::new(path.to_string());
    w.set_time(hour, min);
    w
}

#[test]
fn path_order_is_dictionary_order() {
    assert!(path_le("", ""));
    assert!(path_le("", "a"));
    assert!(!path_le("a", ""));
    assert!(path_le("a", "a"));
    assert!(path_le("a", "b"));
    assert!(!path_le("b", "a"));
    assert!(path_le("ab", "abc"));
    assert!(!path_le("abc", "ab"));
    assert!(path_le("abc", "abd"));
    assert!(path_le("Z", "a"));
    assert!(path_le("img10.png", "img2.png"));
    assert!(!path_le("img2.png", "img10.png"));
}

#[test]
fn path_order_agrees_with_str_order() {
    let samples = [
        "", "a", "A", "ab", "abc", "b", "/w/a.png", "/w/b.png", "/w/a.png.bak", "z", "é", "e",
        "ß", "日本", "日本語", "\u{10FFFF}", "\u{FFFF}", "\u{E000}", "\u{D7FF}", "~", " ", "a b",
    ];
    for a in samples {
        for b in samples {
            assert_eq!(path_le(a, b), a <= b, "{:?} against {:?}", a, b);
        }
    }
}

#[test]
fn entry_order_follows_the_key() {
    let early_z = at("z", 1, 0);
    let late_a = at("a", 2, 0);
    assert!(entry_le(SortKey::Time, &early_z, &late_a));
    assert!(!entry_le(SortKey::Time, &late_a, &early_z));
    assert!(entry_le(SortKey::Path, &late_a, &early_z));
    assert!(!entry_le(SortKey::Path, &early_z, &late_a));
    assert!(entry_le(SortKey::Time, &at("a", 1, 0), &at("b", 0, 60)));
    assert!(entry_le(SortKey::Time, &at("b", 0, 60), &at("a", 1, 0)));
}

#[test]
fn sort_by_time_orders_the_list() {
    let mut list = vec![at("c", 16, 0), at("a", 0, 0), at("d", 23, 59), at("b", 8, 0)];
    sort_entries(&mut list, SortKey::Time);
    assert_eq!(list, vec![at("a", 0, 0), at("b", 8, 0), at("c", 16, 0), at("d", 23, 59)]);
}

#[test]
fn sort_by_path_orders_the_list() {
    let mut list = vec![at("b", 1, 0), at("ab", 2, 0), at("a", 3, 0), at("B", 4, 0)];
    sort_entries(&mut list, SortKey::Path);
    assert_eq!(list, vec![at("B", 4, 0), at("a", 3, 0), at("ab", 2, 0), at("b", 1, 0)]);
}

#[test]
fn sort_keeps_ties_in_list_order() {
    let mut list = vec![
        at("late", 9, 0),
        at("second", 8, 0),
        at("first", 7, 60),
        at("third", 8, 0),
        at("early", 1, 0),
        at("fourth", 8, 0),
    ];
    sort_entries(&mut list, SortKey::Time);
    assert_eq!(
        list,
        vec![
            at("early", 1, 0),
            at("second", 8, 0),
            at("first", 7, 60),
            at("third", 8, 0),
            at("fourth", 8, 0),
            at("late", 9, 0),
        ]
    );
}

#[test]
fn sort_handles_short_and_reversed_lists() {
    let mut none: Vec<Wallpaper> = Vec::new();
    sort_entries(&mut none, SortKey::Time);
    assert!(none.is_empty());

    let mut one = vec![at("x", 3, 3)];
    sort_entries(&mut one, SortKey::Path);
    assert_eq!(one, vec![at("x", 3, 3)]);

    let mut reversed: Vec<Wallpaper> = (0..24).rev().map(|h| at("p", h, 0)).collect();
    sort_entries(&mut reversed, SortKey::Time);
    let hours: Vec<u32> = reversed.iter().map(|w| w.hour).collect();
    assert_eq!(hours, (0..24).collect::<Vec<u32>>());
}

#[test]
fn sort_agrees_with_the_stable_sort_of_std() {
    let mut seed: u64 = 12345;
    for round in 0..60usize {
        let mut list: Vec<Wallpaper> = Vec::new();
        for i in 0..round {
            seed = seed.wrapping_mul(6364136223846793005).wrapping_add(1442695040888963407);
            let hour = ((seed >> 33) % 5) as u32;
            let min = ((seed >> 40) % 3) as u32 * 30;
            let name = format!("{}-{}", (seed >> 50) % 4, i % 3);
            list.push(at(&name, hour, min));
        }
        let mut by_time = list.clone();
        sort_entries(&mut by_time, SortKey::Time);
        let mut expected = list.clone();
        expected.sort_by(|a, b| a.minute_of_day().cmp(&b.minute_of_day()));
        assert_eq!(by_time, expected);

        let mut by_path = list.clone();
        sort_entries(&mut by_path, SortKey::Path);
        let mut expected = list.clone();
        expected.sort_by(|a, b| a.path.cmp(&b.path));
        assert_eq!(by_path, expected);
    }
}

#[test]
fn same_instant_entries_keep_their_order_in_a_schedule() {
    let schedule = Schedule::from_entries(vec![
        at("x", 12, 0),
        at("second", 6, 0),
        at("first", 5, 60),
        at("a", 0, 0),
    ])
    .unwrap();
    let names: Vec<&str> =
        (0..schedule.len()).map(|i| schedule.get(i).unwrap().path.as_str()).collect();
    assert_eq!(names, vec!["a", "second", "first", "x"]);
    // at 06:00 the later of the two is on display
    assert_eq!(schedule.locate(360), 2);
}
