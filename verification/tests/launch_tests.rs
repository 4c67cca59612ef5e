use bursts::launch::{advance_wave, base_max_rockets, burst_glyph, palette_pick, remove_marked, wave_cap};

#[test]
fn base_max_rockets_by_rate() {
    assert_eq!(base_max_rockets(0), 2);
    assert_eq!(base_max_rockets(1), 3);
    assert_eq!(base_max_rockets(2), 5);
    assert_eq!(base_max_rockets(7), 3);
}

#[test]
fn wave_cap_on_battery_and_mains() {
    assert_eq!(wave_cap(true, 0), 2);
    assert_eq!(wave_cap(true, 1), 3);
    assert_eq!(wave_cap(false, 0), 3);
    assert_eq!(wave_cap(false, 2), 5);
}

#[test]
fn advance_wave_counts_then_goes_quiet() {
    assert_eq!(advance_wave(0, 3), (1, false));
    assert_eq!(advance_wave(1, 3), (2, false));
    assert_eq!(advance_wave(2, 3), (0, true));
    assert_eq!(advance_wave(u32::MAX, 5), (0, true));
}

#[test]
fn wave_never_reaches_its_cap() {
    for cap in 2u32..=5 {
        let mut n = 0u32;
        for _ in 0..20 {
            let (next, quiet) = advance_wave(n, cap);
            assert!(next < cap);
            assert_eq!(quiet, next == 0);
            n = next;
        }
    }
}

#[test]
fn palette_pick_includes_accent() {
    let palette = vec![(255, 0, 0), (0, 255, 0)];
    let accent = (1, 2, 3);
    assert_eq!(palette_pick(&palette, accent, 0), (255, 0, 0));
    assert_eq!(palette_pick(&palette, accent, 1), (0, 255, 0));
    assert_eq!(palette_pick(&palette, accent, 2), (1, 2, 3));
}

#[test]
fn burst_glyph_choices() {
    assert_eq!(burst_glyph(0), '*');
    assert_eq!(burst_glyph(1), '+');
    assert_eq!(burst_glyph(2), '•');
    assert_eq!(burst_glyph(3), '.');
    assert_eq!(burst_glyph(99), '.');
}

#[test]
fn remove_marked_keeps_order_and_returns_highest_first() {
    let mut items = vec![10, 11, 12, 13, 14, 15];
    let taken = remove_marked(&mut items, &vec![1, 3, 4]);
    assert_eq!(items, vec![10, 12, 15]);
    assert_eq!(taken, vec![14, 13, 11]);
}

#[test]
fn remove_marked_none_and_all() {
    let mut items = vec!['a', 'b', 'c'];
    let taken = remove_marked(&mut items, &vec![]);
    assert_eq!(items, vec!['a', 'b', 'c']);
    assert!(taken.is_empty());
    let taken = remove_marked(&mut items, &vec![0, 1, 2]);
    assert!(items.is_empty());
    assert_eq!(taken, vec!['c', 'b', 'a']);
}

#[test]
fn remove_marked_matches_reverse_removal() {
    let original: Vec<u32> = (0..12).map(|x| x * 7 + 1).collect();
    let marked = vec![0usize, 2, 5, 6, 11];
    let mut expected = original.clone();
    let mut expected_taken = Vec::new();
    for &i in marked.iter().rev() {
        expected_taken.push(expected.remove(i));
    }
    let mut items = original.clone();
    let taken = remove_marked(&mut items, &marked);
    assert_eq!(items, expected);
    assert_eq!(taken, expected_taken);
    assert_eq!(items.len() + taken.len(), original.len());
}
